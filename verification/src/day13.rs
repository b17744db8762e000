//! Mirror-valley puzzle: each block of lines is a grid of ash and rocks;
//! find the reflection axis of each grid, either exact or off by exactly
//! one cell (the smudge), and summarize rows times 100 plus columns.
use vstd::prelude::*;

use crate::parsing::{byte_views, group_views, spec_groups, spec_lines, split_lines, group_lines};
use vstd::pervasive::VecAdditionalExecFns;
use vstd::string::StringSliceAdditionalSpecFns;

verus! {

/// Blocks of lines between empty lines.
pub fn parse(input: &str) -> (r: Vec<Vec<Vec<u8>>>)
    ensures
        group_views(r@) == spec_groups(spec_lines(input.spec_bytes())),
{
    let bytes = input.as_bytes();
    let lines = split_lines(bytes);
    group_lines(&lines)
}

/// Number of set bits among the low `n` bits.
pub open spec fn pop_below(x: u32, n: nat) -> nat
    decreases n,
{
    if n == 0 {
        0
    } else {
        pop_below(x, (n - 1) as nat) + (if x & (1u32 << ((n - 1) as usize)) != 0 {
            1nat
        } else {
            0nat
        })
    }
}

pub fn popcount(x: u32) -> (r: u32)
    ensures
        r == pop_below(x, 32),
        r <= 32,
{
    let mut acc: u32 = 0;
    let mut k: usize = 0;
    while k < 32
        invariant
            0 <= k <= 32,
            acc == pop_below(x, k as nat),
            acc <= k,
        decreases 32 - k,
    {
        if x & (1u32 << k) != 0 {
            acc = acc + 1;
        }
        k = k + 1;
    }
    acc
}

/// The mask of one grid row: bit `i` set when column `i` holds a rock,
/// over the first `n` columns.
pub open spec fn row_mask(line: Seq<u8>, n: int) -> u32
    decreases n,
{
    if n <= 0 {
        0
    } else {
        let prev = row_mask(line, n - 1);
        if line[n - 1] == 35 {
            prev | (1u32 << ((n - 1) as usize))
        } else {
            prev
        }
    }
}

/// The mask of one grid column: bit `j` set when row `j` holds a rock,
/// over the first `n` rows.
pub open spec fn col_mask(p: Seq<Seq<u8>>, i: int, n: int) -> u32
    decreases n,
{
    if n <= 0 {
        0
    } else {
        let prev = col_mask(p, i, n - 1);
        if p[n - 1][i] == 35 {
            prev | (1u32 << ((n - 1) as usize))
        } else {
            prev
        }
    }
}

/// A grid this solver can handle: rectangular, at most 32 wide and tall.
pub open spec fn pattern_ok(p: Seq<Seq<u8>>) -> bool {
    &&& 1 <= p.len() <= 32
    &&& 1 <= p[0].len() <= 32
    &&& forall|j: int| 0 <= j < p.len() ==> #[trigger] p[j].len() == p[0].len()
}

pub open spec fn spec_row_masks(p: Seq<Seq<u8>>) -> Seq<u32> {
    Seq::new(p.len(), |j: int| row_mask(p[j], p[0].len() as int))
}

pub open spec fn spec_col_masks(p: Seq<Seq<u8>>) -> Seq<u32> {
    Seq::new(p[0].len(), |i: int| col_mask(p, i, p.len() as int))
}

/// Row and column masks of a grid; `None` on a grid the solver rejects.
pub fn parse_pattern(pattern: &Vec<Vec<u8>>) -> (r: Option<(Vec<u32>, Vec<u32>)>)
    ensures
        match r {
            Some((rows, cols)) => {
                &&& pattern_ok(byte_views(pattern@))
                &&& rows@ == spec_row_masks(byte_views(pattern@))
                &&& cols@ == spec_col_masks(byte_views(pattern@))
            },
            None => !pattern_ok(byte_views(pattern@)),
        },
{
    let ghost p = byte_views(pattern@);
    let h = pattern.len();
    if h == 0 || h > 32 {
        return None;
    }
    let w = pattern[0].len();
    if w == 0 || w > 32 {
        return None;
    }
    let mut j: usize = 0;
    while j < h
        invariant
            0 <= j <= h,
            h == pattern@.len(),
            p == byte_views(pattern@),
            w == p[0].len(),
            forall|x: int| 0 <= x < j ==> #[trigger] p[x].len() == p[0].len(),
        decreases h - j,
    {
        if pattern[j].len() != w {
            proof {
                assert(p[j as int].len() != p[0].len());
            }
            return None;
        }
        j = j + 1;
    }
    let mut rows: Vec<u32> = Vec::new();
    let mut cols: Vec<u32> = Vec::new();
    let mut i: usize = 0;
    while i < w
        invariant
            0 <= i <= w,
            cols@.len() == i,
            forall|x: int| 0 <= x < i ==> cols@[x] == 0,
        decreases w - i,
    {
        cols.push(0);
        i = i + 1;
    }
    let mut j: usize = 0;
    while j < h
        invariant
            0 <= j <= h,
            h == pattern@.len(),
            p == byte_views(pattern@),
            pattern_ok(p),
            w == p[0].len(),
            rows@.len() == j,
            cols@.len() == w,
            forall|x: int| 0 <= x < j ==> rows@[x] == row_mask(p[x], w as int),
            forall|x: int| 0 <= x < w ==> cols@[x] == col_mask(p, x, j as int),
        decreases h - j,
    {
        let mut m: u32 = 0;
        let mut i: usize = 0;
        while i < w
            invariant
                0 <= i <= w,
                0 <= j < h,
                h == pattern@.len(),
                p == byte_views(pattern@),
                pattern_ok(p),
                w == p[0].len(),
                cols@.len() == w,
                m == row_mask(p[j as int], i as int),
                forall|x: int| 0 <= x < i ==> cols@[x] == col_mask(p, x, j + 1),
                forall|x: int| i <= x < w ==> cols@[x] == col_mask(p, x, j as int),
            decreases w - i,
        {
            if pattern[j][i] == 35 {
                m = m | (1u32 << i);
                let c = cols[i];
                cols.set(i, c | (1u32 << j));
            } else {
                proof {
                    assert(col_mask(p, i as int, j + 1) == col_mask(p, i as int, j as int));
                }
            }
            i = i + 1;
        }
        rows.push(m);
        j = j + 1;
    }
    proof {
        assert(rows@ =~= spec_row_masks(p));
        assert(cols@ =~= spec_col_masks(p));
    }
    Some((rows, cols))
}

/// An exact reflection between positions `i` and `i + 1`.
pub open spec fn is_mirror(vs: Seq<u32>, i: int) -> bool {
    forall|d: int|
        0 <= d && i - d >= 0 && i + 1 + d < vs.len() ==> vs[i - d] == #[trigger] vs[i + 1 + d]
}

/// How many pairs the reflection at `i` compares.
pub open spec fn mirror_width(vs: Seq<u32>, i: int) -> int {
    if i + 1 <= vs.len() - 1 - i {
        i + 1
    } else {
        vs.len() - 1 - i
    }
}

/// Total number of differing cells across the first `d` compared pairs.
pub open spec fn smudge_sum(vs: Seq<u32>, i: int, d: int) -> int
    decreases d,
{
    if d <= 0 {
        0
    } else {
        smudge_sum(vs, i, d - 1) + pop_below(vs[i - (d - 1)] ^ vs[i + 1 + (d - 1)], 32)
    }
}

/// A reflection at `i`, exact or (with `smudge`) off by exactly one cell.
pub open spec fn is_reflection(vs: Seq<u32>, i: int, smudge: bool) -> bool {
    if smudge {
        smudge_sum(vs, i, mirror_width(vs, i)) == 1
    } else {
        is_mirror(vs, i)
    }
}

/// The first reflection position at or after `i`, reported 1-based.
pub open spec fn spec_scan_from(vs: Seq<u32>, i: int, smudge: bool) -> Option<int>
    decreases vs.len() - i,
{
    if !(0 <= i < vs.len() - 1) {
        None
    } else if is_reflection(vs, i, smudge) {
        Some(i + 1)
    } else {
        spec_scan_from(vs, i + 1, smudge)
    }
}

pub open spec fn spec_scan_values(vs: Seq<u32>, smudge: bool) -> Option<int> {
    spec_scan_from(vs, 0, smudge)
}

proof fn lemma_scan_from_range(vs: Seq<u32>, i: int, smudge: bool)
    requires
        spec_scan_from(vs, i, smudge) is Some,
    ensures
        i + 1 <= spec_scan_from(vs, i, smudge).unwrap() <= vs.len() - 1,
    decreases vs.len() - i,
{
    if 0 <= i < vs.len() - 1 && !is_reflection(vs, i, smudge) {
        lemma_scan_from_range(vs, i + 1, smudge);
    }
}

fn check_mirror(values: &Vec<u32>, i: usize) -> (r: bool)
    requires
        i < values@.len() - 1,
    ensures
        r == is_mirror(values@, i as int),
{
    let vs = values;
    let mut d: usize = 0;
    while d <= i && d < values.len() - i - 1
        invariant
            0 <= d,
            i < values@.len() - 1,
            forall|t: int| 0 <= t < d ==> values@[i - t] == #[trigger] values@[i + 1 + t],
        decreases values@.len() - d,
    {
        if values[i - d] != values[i + 1 + d] {
            assert(!is_mirror(values@, i as int)) by {
                assert(values@[i - d] != values@[i + 1 + d as int]);
            }
            return false;
        }
        d = d + 1;
    }
    assert(is_mirror(values@, i as int));
    true
}

fn check_smudge(values: &Vec<u32>, i: usize) -> (r: bool)
    requires
        i < values@.len() - 1,
    ensures
        r == (smudge_sum(values@, i as int, mirror_width(values@, i as int)) == 1),
{
    let mut d: usize = 0;
    let mut acc: u32 = 0;
    let ghost wdt = mirror_width(values@, i as int);
    while d <= i && d < values.len() - i - 1
        invariant
            0 <= d,
            i < values@.len() - 1,
            wdt == mirror_width(values@, i as int),
            d <= wdt,
            acc == (if smudge_sum(values@, i as int, d as int) <= 2 {
                smudge_sum(values@, i as int, d as int)
            } else {
                2int
            }),
        decreases values@.len() - d,
    {
        let pc = popcount(values[i - d] ^ values[i + 1 + d]);
        acc = acc + pc;
        if acc > 2 {
            acc = 2;
        }
        d = d + 1;
    }
    proof {
        assert(d == wdt);
    }
    acc == 1
}

/// The first reflection position, 1-based, or `None` when there is none.
pub fn scan_values(values: &Vec<u32>) -> (r: Option<usize>)
    ensures
        match r {
            Some(v) => spec_scan_values(values@, false) == Some(v as int),
            None => spec_scan_values(values@, false) is None,
        },
{
    scan_impl(values, false)
}

/// The first position whose reflection is off by exactly one cell.
pub fn scan_values_with_smudge(values: &Vec<u32>) -> (r: Option<usize>)
    ensures
        match r {
            Some(v) => spec_scan_values(values@, true) == Some(v as int),
            None => spec_scan_values(values@, true) is None,
        },
{
    scan_impl(values, true)
}

fn scan_impl(values: &Vec<u32>, smudge: bool) -> (r: Option<usize>)
    ensures
        match r {
            Some(v) => spec_scan_values(values@, smudge) == Some(v as int),
            None => spec_scan_values(values@, smudge) is None,
        },
{
    if values.len() == 0 {
        return None;
    }
    let mut i: usize = 0;
    while i < values.len() - 1
        invariant
            0 <= i <= values@.len() - 1,
            values@.len() >= 1,
            spec_scan_values(values@, smudge) == spec_scan_from(values@, i as int, smudge),
        decreases values@.len() - i,
    {
        let hit = if smudge {
            check_smudge(values, i)
        } else {
            check_mirror(values, i)
        };
        if hit {
            return Some(i + 1);
        }
        i = i + 1;
    }
    None
}

#[derive(Debug, PartialEq, Eq, Structural, Clone, Copy)]
pub enum ScanResult {
    Horizontal(usize),
    Vertical(usize),
}

/// A horizontal reflection wins over a vertical one.
pub open spec fn spec_scan(lines: Seq<u32>, cols: Seq<u32>, smudge: bool) -> Option<ScanResult> {
    match spec_scan_values(lines, smudge) {
        Some(h) => Some(ScanResult::Horizontal(h as usize)),
        None => match spec_scan_values(cols, smudge) {
            Some(v) => Some(ScanResult::Vertical(v as usize)),
            None => None,
        },
    }
}

pub fn scan(lines: &Vec<u32>, cols: &Vec<u32>, smudge: bool) -> (r: Option<ScanResult>)
    ensures
        r == spec_scan(lines@, cols@, smudge),
{
    proof {
        if spec_scan_values(lines@, smudge) is Some {
            lemma_scan_from_range(lines@, 0, smudge);
        }
        if spec_scan_values(cols@, smudge) is Some {
            lemma_scan_from_range(cols@, 0, smudge);
        }
    }
    match scan_impl(lines, smudge) {
        Some(h) => Some(ScanResult::Horizontal(h)),
        None => match scan_impl(cols, smudge) {
            Some(v) => Some(ScanResult::Vertical(v)),
            None => None,
        },
    }
}

/// Running totals of horizontal and vertical reflection positions.
pub open spec fn spec_summarize(groups: Seq<Seq<Seq<u8>>>, smudge: bool) -> Option<(int, int)>
    decreases groups.len(),
{
    if groups.len() == 0 {
        Some((0, 0))
    } else {
        match spec_summarize(groups.drop_last(), smudge) {
            Some((h, v)) => {
                let p = groups.last();
                if !pattern_ok(p) {
                    None
                } else {
                    match spec_scan(spec_row_masks(p), spec_col_masks(p), smudge) {
                        Some(ScanResult::Horizontal(x)) => Some((h + x, v)),
                        Some(ScanResult::Vertical(x)) => Some((h, v + x)),
                        None => None,
                    }
                }
            },
            None => None,
        }
    }
}

proof fn lemma_summarize_prefix(groups: Seq<Seq<Seq<u8>>>, i: int, smudge: bool)
    requires
        0 <= i <= groups.len(),
    ensures
        spec_summarize(groups.take(i), smudge) is None ==> spec_summarize(groups, smudge) is None,
        spec_summarize(groups.take(i), smudge) matches Some((h1, v1)) ==> (
        match spec_summarize(groups, smudge) {
            Some((h, v)) => h1 <= h && v1 <= v,
            None => true,
        }),
    decreases groups.len() - i,
{
    if i < groups.len() {
        assert(groups.take(i + 1).drop_last() =~= groups.take(i));
        lemma_summarize_prefix(groups, i + 1, smudge);
        if spec_summarize(groups.take(i), smudge) matches Some((h1, v1)) {
            if spec_summarize(groups.take(i + 1), smudge) matches Some((h2, v2)) {
                let p = groups.take(i + 1).last();
                match spec_scan(spec_row_masks(p), spec_col_masks(p), smudge) {
                    Some(ScanResult::Horizontal(x)) => {
                        lemma_scan_from_range(spec_row_masks(p), 0, smudge);
                    },
                    Some(ScanResult::Vertical(x)) => {
                        lemma_scan_from_range(spec_col_masks(p), 0, smudge);
                    },
                    None => {},
                }
            }
        }
    } else {
        assert(groups.take(i) =~= groups);
    }
}

/// Summaries of all grids: 100 per horizontal row above the axis, 1 per
/// vertical column left of it. `None` on a rejected grid, a grid with no
/// reflection, or a sum beyond the machine range.
pub fn scan_and_summarize_notes(input: &Vec<Vec<Vec<u8>>>, smudge: bool) -> (r: Option<usize>)
    ensures
        match r {
            Some(v) => {
                &&& spec_summarize(group_views(input@), smudge) is Some
                &&& {
                    let (h, vv) = spec_summarize(group_views(input@), smudge).unwrap();
                    v == 100 * h + vv
                }
            },
            None => spec_summarize(group_views(input@), smudge) is None || {
                let (h, vv) = spec_summarize(group_views(input@), smudge).unwrap();
                100 * h + vv > usize::MAX
            },
        },
{
    let ghost gv = group_views(input@);
    let mut h: usize = 0;
    let mut v: usize = 0;
    let mut i: usize = 0;
    while i < input.len()
        invariant
            0 <= i <= input@.len(),
            gv == group_views(input@),
            spec_summarize(gv.take(i as int), smudge) == Some((h as int, v as int)),
        decreases input@.len() - i,
    {
        proof {
            assert(gv.take(i + 1).drop_last() =~= gv.take(i as int));
            assert(gv.take(i + 1).last() == gv[i as int]);
        }
        let pat = parse_pattern(&input[i]);
        proof {
            assert(byte_views(input@[i as int]@) == gv[i as int]);
        }
        match pat {
            None => {
                proof {
                    lemma_summarize_none_rest(gv, i + 1, smudge);
                }
                return None;
            },
            Some((rows, cols)) => {
                let sr = scan(&rows, &cols, smudge);
                match sr {
                    None => {
                        proof {
                            lemma_summarize_none_rest(gv, i + 1, smudge);
                        }
                        return None;
                    },
                    Some(ScanResult::Horizontal(x)) => {
                        proof {
                            lemma_scan_from_range(rows@, 0, smudge);
                        }
                        match h.checked_add(x) {
                            Some(nh) => {
                                h = nh;
                            },
                            None => {
                                proof {
                                    lemma_summarize_prefix(gv, i + 1, smudge);
                                }
                                return None;
                            },
                        }
                    },
                    Some(ScanResult::Vertical(x)) => {
                        proof {
                            lemma_scan_from_range(cols@, 0, smudge);
                        }
                        match v.checked_add(x) {
                            Some(nv) => {
                                v = nv;
                            },
                            None => {
                                proof {
                                    lemma_summarize_prefix(gv, i + 1, smudge);
                                }
                                return None;
                            },
                        }
                    },
                }
            },
        }
        i = i + 1;
    }
    proof {
        assert(gv.take(gv.len() as int) =~= gv);
    }
    let hundred_h = match (100usize).checked_mul(h) {
        Some(x) => x,
        None => {
            return None;
        },
    };
    match hundred_h.checked_add(v) {
        Some(x) => Some(x),
        None => None,
    }
}

/// Once one grid fails, the whole summary fails.
proof fn lemma_summarize_none_rest(groups: Seq<Seq<Seq<u8>>>, i: int, smudge: bool)
    requires
        0 <= i <= groups.len(),
        spec_summarize(groups.take(i), smudge) is None,
    ensures
        spec_summarize(groups, smudge) is None,
    decreases groups.len() - i,
{
    if i < groups.len() {
        assert(groups.take(i + 1).drop_last() =~= groups.take(i));
        lemma_summarize_none_rest(groups, i + 1, smudge);
    } else {
        assert(groups.take(i) =~= groups);
    }
}

pub fn part1(input: &Vec<Vec<Vec<u8>>>) -> (r: Option<usize>)
    ensures
        match r {
            Some(v) => {
                &&& spec_summarize(group_views(input@), false) is Some
                &&& {
                    let (h, vv) = spec_summarize(group_views(input@), false).unwrap();
                    v == 100 * h + vv
                }
            },
            None => spec_summarize(group_views(input@), false) is None || {
                let (h, vv) = spec_summarize(group_views(input@), false).unwrap();
                100 * h + vv > usize::MAX
            },
        },
{
    scan_and_summarize_notes(input, false)
}

pub fn part2(input: &Vec<Vec<Vec<u8>>>) -> (r: Option<usize>)
    ensures
        match r {
            Some(v) => {
                &&& spec_summarize(group_views(input@), true) is Some
                &&& {
                    let (h, vv) = spec_summarize(group_views(input@), true).unwrap();
                    v == 100 * h + vv
                }
            },
            None => spec_summarize(group_views(input@), true) is None || {
                let (h, vv) = spec_summarize(group_views(input@), true).unwrap();
                100 * h + vv > usize::MAX
            },
        },
{
    scan_and_summarize_notes(input, true)
}

} // verus!
