//! Galaxy-expansion puzzle: galaxies sit in a grid whose empty rows and
//! columns expand by a factor; sum the taxicab distances of all pairs.
use vstd::prelude::*;

use crate::parsing::{byte_views, spec_lines, split_lines};
use vstd::pervasive::VecAdditionalExecFns;
use vstd::string::StringSliceAdditionalSpecFns;

verus! {

/// Column positions of the galaxies in one line, left to right.
pub open spec fn row_positions(line: Seq<u8>, n: int) -> Seq<i64>
    decreases n,
{
    if n <= 0 {
        Seq::empty()
    } else if line[n - 1] == 35 {
        row_positions(line, n - 1).push((n - 1) as i64)
    } else {
        row_positions(line, n - 1)
    }
}

pub open spec fn spec_parse(s: Seq<u8>) -> Seq<Seq<i64>> {
    Seq::new(
        spec_lines(s).len(),
        |j: int| row_positions(spec_lines(s)[j], spec_lines(s)[j].len() as int),
    )
}

pub open spec fn parse_fits(s: Seq<u8>) -> bool {
    forall|j: int| 0 <= j < spec_lines(s).len() ==> (#[trigger] spec_lines(s)[j]).len() <= i64::MAX
}

/// Galaxy columns per line; `None` on a line too long for 64-bit columns.
pub fn parse(input: &str) -> (r: Option<Vec<Vec<i64>>>)
    ensures
        match r {
            Some(rows) => {
                &&& parse_fits(input.spec_bytes())
                &&& rows@.len() == spec_parse(input.spec_bytes()).len()
                &&& forall|j: int|
                    0 <= j < rows@.len() ==> #[trigger] rows@[j]@ == spec_parse(
                        input.spec_bytes(),
                    )[j]
            },
            None => !parse_fits(input.spec_bytes()),
        },
{
    let bytes = input.as_bytes();
    let lines = split_lines(bytes);
    let ghost lv = spec_lines(input.spec_bytes());
    let mut rows: Vec<Vec<i64>> = Vec::new();
    let mut j: usize = 0;
    while j < lines.len()
        invariant
            0 <= j <= lines@.len(),
            lv == spec_lines(input.spec_bytes()),
            byte_views(lines@) == lv,
            rows@.len() == j,
            forall|t: int| 0 <= t < j ==> (#[trigger] lv[t]).len() <= i64::MAX,
            forall|t: int|
                0 <= t < j ==> #[trigger] rows@[t]@ == row_positions(lv[t], lv[t].len() as int),
        decreases lines@.len() - j,
    {
        let line = &lines[j];
        proof {
            assert(byte_views(lines@)[j as int] == lines@[j as int]@);
        }
        if line.len() as u64 > i64::MAX as u64 {
            assert(lv[j as int].len() > i64::MAX);
            return None;
        }
        let mut xs: Vec<i64> = Vec::new();
        let mut i: usize = 0;
        while i < line.len()
            invariant
                0 <= i <= line@.len(),
                line@.len() <= i64::MAX,
                xs@ == row_positions(line@, i as int),
            decreases line@.len() - i,
        {
            if line[i] == 35 {
                xs.push(i as i64);
            }
            i = i + 1;
        }
        rows.push(xs);
        j = j + 1;
    }
    Some(rows)
}

/// Flat views of the galaxy rows.
pub open spec fn rows_views(v: Seq<Vec<i64>>) -> Seq<Seq<i64>> {
    Seq::new(v.len(), |i: int| v[i]@)
}

/// How many of the first `y` lines hold no galaxy.
pub open spec fn empty_rows_below(rows: Seq<Seq<i64>>, y: int) -> int
    decreases y,
{
    if y <= 0 {
        0
    } else {
        empty_rows_below(rows, y - 1) + (if rows[y - 1].len() == 0 {
            1int
        } else {
            0int
        })
    }
}

/// All galaxies of the first `j` lines as (column, line) pairs, in line
/// order and left to right within a line.
pub open spec fn flat_galaxies(rows: Seq<Seq<i64>>, j: int) -> Seq<(int, int)>
    decreases j,
{
    if j <= 0 {
        Seq::empty()
    } else {
        flat_galaxies(rows, j - 1) + Seq::new(
            rows[j - 1].len(),
            |t: int| (rows[j - 1][t] as int, j - 1),
        )
    }
}

pub open spec fn col_occupied(rows: Seq<Seq<i64>>, c: int) -> bool {
    exists|u: int|
        0 <= u < flat_galaxies(rows, rows.len() as int).len() && (#[trigger] flat_galaxies(
            rows,
            rows.len() as int,
        )[u]).0 == c
}

/// How many columns left of `x` hold no galaxy.
pub open spec fn empty_cols_below(rows: Seq<Seq<i64>>, x: int) -> int
    decreases x,
{
    if x <= 0 {
        0
    } else {
        empty_cols_below(rows, x - 1) + (if col_occupied(rows, x - 1) {
            0int
        } else {
            1int
        })
    }
}

/// The highest galaxy column among the first `t` entries of one line,
/// starting from `acc`.
pub open spec fn row_max_x(line: Seq<i64>, t: int, acc: int) -> int
    decreases t,
{
    if t <= 0 {
        acc
    } else {
        let m = row_max_x(line, t - 1, acc);
        if line[t - 1] > m {
            line[t - 1] as int
        } else {
            m
        }
    }
}

/// The highest galaxy column in the first `j` lines, or 0 with none.
pub open spec fn max_x_upto(rows: Seq<Seq<i64>>, j: int) -> int
    decreases j,
{
    if j <= 0 {
        0
    } else {
        row_max_x(rows[j - 1], rows[j - 1].len() as int, max_x_upto(rows, j - 1))
    }
}

/// Where each galaxy lands once every empty row and column counts
/// `factor` times.
pub open spec fn spec_expanded(rows: Seq<Seq<i64>>, factor: int) -> Seq<(int, int)> {
    let flat = flat_galaxies(rows, rows.len() as int);
    Seq::new(
        flat.len(),
        |k: int|
            (
                flat[k].0 + empty_cols_below(rows, flat[k].0) * (factor - 1),
                flat[k].1 + empty_rows_below(rows, flat[k].1) * (factor - 1),
            ),
    )
}

/// Whether the grid and every expanded coordinate stay in machine range.
pub open spec fn expand_fits(rows: Seq<Seq<i64>>, factor: int) -> bool {
    &&& rows.len() <= i64::MAX
    &&& max_x_upto(rows, rows.len() as int) < usize::MAX
    &&& forall|k: int|
        0 <= k < spec_expanded(rows, factor).len() ==> {
            &&& (#[trigger] spec_expanded(rows, factor)[k]).0 <= i64::MAX
            &&& spec_expanded(rows, factor)[k].1 <= i64::MAX
        }
}

/// Columns seen among the first `k` galaxies of the flat list.
pub open spec fn flat_has_x_upto(fl: Seq<(int, int)>, k: int, c: int) -> bool {
    exists|u: int| 0 <= u < k && (#[trigger] fl[u]).0 == c
}

pub fn expand(input: &Vec<Vec<i64>>, factor: i64) -> (r: Option<Vec<(i64, i64)>>)
    requires
        factor >= 1,
        forall|j: int|
            0 <= j < input@.len() ==> forall|t: int|
                0 <= t < (#[trigger] input@[j])@.len() ==> 0 <= #[trigger] input@[j]@[t],
    ensures
        match r {
            Some(v) => {
                &&& expand_fits(rows_views(input@), factor as int)
                &&& v@.len() == spec_expanded(rows_views(input@), factor as int).len()
                &&& forall|k: int|
                    0 <= k < v@.len() ==> ((#[trigger] v@[k]).0 as int, v@[k].1 as int)
                        == spec_expanded(rows_views(input@), factor as int)[k]
            },
            None => !expand_fits(rows_views(input@), factor as int),
        },
{
    let ghost rows = rows_views(input@);
    let ghost fc = factor as int;
    if input.len() as u64 > i64::MAX as u64 {
        proof {
            assert(rows.len() == input@.len());
        }
        return None;
    }
    // first pass: flatten the galaxies, expanding the line coordinate,
    // and find the highest column
    let mut raw: Vec<(i64, i64)> = Vec::new();
    let mut hx: i64 = 0;
    let mut er: i64 = 0;
    let mut j: usize = 0;
    proof {
        assert(flat_galaxies(rows, 0) =~= Seq::<(int, int)>::empty());
    }
    while j < input.len()
        invariant
            0 <= j <= input@.len(),
            input@.len() <= i64::MAX,
            rows == rows_views(input@),
            fc == factor as int,
            factor >= 1,
            forall|jj: int|
                0 <= jj < input@.len() ==> forall|t: int|
                    0 <= t < (#[trigger] input@[jj])@.len() ==> 0 <= #[trigger] input@[jj]@[t],
            er == empty_rows_below(rows, j as int),
            0 <= er <= j,
            0 <= hx <= i64::MAX,
            hx == max_x_upto(rows, j as int),
            raw@.len() == flat_galaxies(rows, j as int).len(),
            forall|k: int|
                0 <= k < raw@.len() ==> {
                    let fl = flat_galaxies(rows, j as int);
                    &&& (#[trigger] raw@[k]).0 as int == fl[k].0
                    &&& 0 <= raw@[k].0 <= hx
                    &&& raw@[k].1 as int == fl[k].1 + empty_rows_below(rows, fl[k].1) * (fc - 1)
                },
        decreases input@.len() - j,
    {
        let line = &input[j];
        let ghost fl_before = flat_galaxies(rows, j as int);
        let ghost entries = Seq::new(
            rows[j as int].len(),
            |t: int| (rows[j as int][t] as int, j as int),
        );
        let ghost hx0 = hx as int;
        proof {
            assert(flat_galaxies(rows, j + 1) == fl_before + entries);
            assert(0 <= (er as int) * ((factor as int) - 1)
                <= 0x3fff_ffff_ffff_ffff_ffff_ffff_ffff_ffffint) by (nonlinear_arith)
                requires
                    0 <= er < 0x8000_0000_0000_0000,
                    1 <= factor < 0x8000_0000_0000_0000,
            ;
        }
        let prod: i128 = (er as i128) * ((factor as i128) - 1);
        let ny128: i128 = (j as i128) + prod;
        proof {
            assert(ny128 == j + er * (fc - 1));
            assert(ny128 >= 0);
        }
        if line.len() > 0 && ny128 > i64::MAX as i128 {
            proof {
                let k = fl_before.len() as int;
                let se = spec_expanded(rows, fc);
                assert(flat_galaxies(rows, j + 1)[k].1 == j as int);
                lemma_flat_prefix(rows, j + 1, rows.len() as int);
                assert(se[k].1 == j + empty_rows_below(rows, j as int) * (fc - 1));
            }
            return None;
        }
        let ny: i64 = if line.len() > 0 {
            ny128 as i64
        } else {
            0
        };
        let mut t: usize = 0;
        while t < line.len()
            invariant
                0 <= t <= line@.len(),
                0 <= j < input@.len(),
                input@.len() <= i64::MAX,
                rows == rows_views(input@),
                line@ == rows[j as int],
                fc == factor as int,
                factor >= 1,
                forall|tt: int| 0 <= tt < line@.len() ==> 0 <= #[trigger] line@[tt],
                line@.len() > 0 ==> ny == j + empty_rows_below(rows, j as int) * (fc - 1),
                entries == Seq::new(
                    rows[j as int].len(),
                    |tt: int| (rows[j as int][tt] as int, j as int),
                ),
                0 <= hx <= i64::MAX,
                hx == row_max_x(line@, t as int, hx0),
                hx >= hx0,
                raw@.len() == fl_before.len() + t,
                forall|k: int|
                    0 <= k < fl_before.len() ==> {
                        &&& (#[trigger] raw@[k]).0 as int == fl_before[k].0
                        &&& 0 <= raw@[k].0 <= hx
                        &&& raw@[k].1 as int == fl_before[k].1 + empty_rows_below(
                            rows,
                            fl_before[k].1,
                        ) * (fc - 1)
                    },
                forall|k: int|
                    fl_before.len() <= k < raw@.len() ==> {
                        &&& (#[trigger] raw@[k]).0 as int == entries[k - fl_before.len()].0
                        &&& 0 <= raw@[k].0 <= hx
                        &&& raw@[k].1 == ny
                    },
            decreases line@.len() - t,
        {
            let x = line[t];
            if x > hx {
                hx = x;
            }
            raw.push((x, ny));
            t = t + 1;
        }
        if line.len() == 0 {
            er = er + 1;
        }
        proof {
            assert(hx == max_x_upto(rows, j + 1));
            assert(raw@.len() == flat_galaxies(rows, j + 1).len());
            assert(forall|k: int|
                0 <= k < raw@.len() ==> #[trigger] flat_galaxies(rows, j + 1)[k] == (
                if k < fl_before.len() {
                    fl_before[k]
                } else {
                    entries[k - fl_before.len()]
                }));
        }
        j = j + 1;
    }
    proof {
        lemma_flat_y_bounds(rows, rows.len() as int);
    }
    if (hx as u64) >= (usize::MAX as u64) {
        return None;
    }
    // second pass: which columns up to the highest hold a galaxy
    let width: usize = (hx as usize) + 1;
    let ghost fl = flat_galaxies(rows, rows.len() as int);
    let mut occupied: Vec<bool> = Vec::new();
    let mut c: usize = 0;
    while c < width
        invariant
            occupied@.len() == c,
            0 <= c <= width,
            forall|cc: int| 0 <= cc < c ==> !(#[trigger] occupied@[cc]),
        decreases width - c,
    {
        occupied.push(false);
        c = c + 1;
    }
    let mut k: usize = 0;
    while k < raw.len()
        invariant
            0 <= k <= raw@.len(),
            rows == rows_views(input@),
            fl == flat_galaxies(rows, rows.len() as int),
            raw@.len() == fl.len(),
            occupied@.len() == width,
            width == hx + 1,
            0 <= hx <= i64::MAX,
            forall|t: int|
                0 <= t < raw@.len() ==> {
                    &&& (#[trigger] raw@[t]).0 as int == fl[t].0
                    &&& 0 <= raw@[t].0 <= hx
                },
            forall|cc: int|
                0 <= cc < width ==> #[trigger] occupied@[cc] == flat_has_x_upto(fl, k as int, cc),
        decreases raw@.len() - k,
    {
        let x = raw[k].0;
        let ghost prev_occ = occupied@;
        occupied.set(x as usize, true);
        proof {
            assert forall|cc: int| 0 <= cc < width implies #[trigger] occupied@[cc]
                == flat_has_x_upto(fl, k + 1, cc) by {
                if cc == x as int {
                    assert(fl[k as int].0 == cc);
                    assert(flat_has_x_upto(fl, k + 1, cc));
                } else {
                    assert(occupied@[cc] == prev_occ[cc]);
                    if flat_has_x_upto(fl, k + 1, cc) {
                        let u = choose|u: int| 0 <= u < k + 1 && (#[trigger] fl[u]).0 == cc;
                        assert(u != k);
                        assert(flat_has_x_upto(fl, k as int, cc));
                    }
                    if flat_has_x_upto(fl, k as int, cc) {
                        let u = choose|u: int| 0 <= u < k && (#[trigger] fl[u]).0 == cc;
                        assert(0 <= u < k + 1 && fl[u].0 == cc);
                    }
                }
            }
        }
        k = k + 1;
    }
    proof {
        assert(forall|cc: int|
            0 <= cc < width ==> #[trigger] occupied@[cc] == col_occupied(rows, cc));
    }
    // prefix counts of empty columns
    let mut cum: Vec<i64> = Vec::new();
    cum.push(0);
    let mut c2: usize = 1;
    while c2 < width
        invariant
            1 <= c2 <= width,
            width == hx + 1,
            0 <= hx <= i64::MAX,
            occupied@.len() == width,
            forall|cc: int| 0 <= cc < width ==> #[trigger] occupied@[cc] == col_occupied(rows, cc),
            cum@.len() == c2,
            forall|cc: int| 0 <= cc < c2 ==> #[trigger] cum@[cc] == empty_cols_below(rows, cc),
            forall|cc: int| 0 <= cc < c2 ==> 0 <= #[trigger] cum@[cc] <= cc,
        decreases width - c2,
    {
        let prev = cum[c2 - 1];
        let add: i64 = if occupied[c2 - 1] {
            0
        } else {
            1
        };
        cum.push(prev + add);
        c2 = c2 + 1;
    }
    // third pass: expand the column coordinate
    let ghost se = spec_expanded(rows, fc);
    let mut out: Vec<(i64, i64)> = Vec::new();
    let mut k2: usize = 0;
    while k2 < raw.len()
        invariant
            0 <= k2 <= raw@.len(),
            rows == rows_views(input@),
            fc == factor as int,
            factor >= 1,
            se == spec_expanded(rows, fc),
            fl == flat_galaxies(rows, rows.len() as int),
            raw@.len() == se.len(),
            cum@.len() == width,
            width == hx + 1,
            0 <= hx <= i64::MAX,
            forall|cc: int|
                0 <= cc < cum@.len() ==> #[trigger] cum@[cc] == empty_cols_below(rows, cc),
            forall|cc: int| 0 <= cc < cum@.len() ==> 0 <= #[trigger] cum@[cc] <= cc,
            forall|t: int|
                0 <= t < raw@.len() ==> {
                    &&& (#[trigger] raw@[t]).0 as int == fl[t].0
                    &&& 0 <= raw@[t].0 <= hx
                    &&& raw@[t].1 as int == se[t].1
                },
            out@.len() == k2,
            forall|t: int|
                0 <= t < k2 ==> ((#[trigger] out@[t]).0 as int, out@[t].1 as int) == se[t],
        decreases raw@.len() - k2,
    {
        let (x, ny) = raw[k2];
        let ec = cum[x as usize];
        proof {
            assert(0 <= (ec as int) * ((factor as int) - 1)
                <= 0x3fff_ffff_ffff_ffff_ffff_ffff_ffff_ffffint) by (nonlinear_arith)
                requires
                    0 <= ec < 0x8000_0000_0000_0000,
                    1 <= factor < 0x8000_0000_0000_0000,
            ;
        }
        let prod: i128 = (ec as i128) * ((factor as i128) - 1);
        let nx128: i128 = (x as i128) + prod;
        proof {
            assert(nx128 == x + ec * (fc - 1));
            assert(nx128 >= 0);
            assert(se[k2 as int].0 == x + empty_cols_below(rows, x as int) * (fc - 1));
        }
        if nx128 > i64::MAX as i128 {
            return None;
        }
        out.push((nx128 as i64, ny));
        k2 = k2 + 1;
    }
    proof {
        assert forall|t: int| 0 <= t < se.len() implies (#[trigger] se[t]).0 <= i64::MAX
            && se[t].1 <= i64::MAX by {
            assert(out@[t].0 as int == se[t].0);
            assert(raw@[t].1 as int == se[t].1);
        }
    }
    Some(out)
}

proof fn lemma_flat_prefix(rows: Seq<Seq<i64>>, j: int, n: int)
    requires
        0 <= j <= n,
    ensures
        flat_galaxies(rows, j).len() <= flat_galaxies(rows, n).len(),
        forall|k: int|
            0 <= k < flat_galaxies(rows, j).len() ==> #[trigger] flat_galaxies(rows, n)[k]
                == flat_galaxies(rows, j)[k],
    decreases n - j,
{
    if j < n {
        lemma_flat_prefix(rows, j + 1, n);
    }
}

proof fn lemma_flat_y_bounds(rows: Seq<Seq<i64>>, j: int)
    requires
        j >= 0,
    ensures
        forall|k: int|
            0 <= k < flat_galaxies(rows, j).len() ==> 0 <= (#[trigger] flat_galaxies(
                rows,
                j,
            )[k]).1 < j,
    decreases j,
{
    if j > 0 {
        lemma_flat_y_bounds(rows, j - 1);
        let fl = flat_galaxies(rows, j);
        let prev = flat_galaxies(rows, j - 1);
        assert(forall|k: int|
            0 <= k < fl.len() ==> #[trigger] fl[k] == (if k < prev.len() {
                prev[k]
            } else {
                (rows[j - 1][k - prev.len()] as int, j - 1)
            }));
    }
}

/// The taxicab distance of two points.
pub open spec fn pair_dist(p: (int, int), q: (int, int)) -> int {
    (if p.0 >= q.0 {
        p.0 - q.0
    } else {
        q.0 - p.0
    }) + (if p.1 >= q.1 {
        p.1 - q.1
    } else {
        q.1 - p.1
    })
}

/// Distances from point `i` to the points before `n`, starting at `i`.
pub open spec fn row_sum(gs: Seq<(int, int)>, i: int, n: int) -> int
    decreases n - i,
{
    if n <= i {
        0
    } else {
        row_sum(gs, i, n - 1) + pair_dist(gs[i], gs[n - 1])
    }
}

/// Distances over all pairs drawn from the first `k` starting points.
pub open spec fn total_sum(gs: Seq<(int, int)>, k: int) -> int
    decreases k,
{
    if k <= 0 {
        0
    } else {
        total_sum(gs, k - 1) + row_sum(gs, k - 1, gs.len() as int)
    }
}

pub open spec fn spec_distances(gs: Seq<(int, int)>) -> int {
    total_sum(gs, gs.len() as int)
}

pub open spec fn int_pairs(gs: Seq<(i64, i64)>) -> Seq<(int, int)> {
    Seq::new(gs.len(), |k: int| (gs[k].0 as int, gs[k].1 as int))
}

proof fn lemma_row_sum_le(gs: Seq<(int, int)>, i: int, n1: int, n2: int)
    requires
        n1 <= n2,
    ensures
        row_sum(gs, i, n1) <= row_sum(gs, i, n2),
    decreases n2 - n1,
{
    if n1 < n2 {
        lemma_row_sum_le(gs, i, n1, n2 - 1);
    }
}

proof fn lemma_total_le(gs: Seq<(int, int)>, k1: int, k2: int)
    requires
        0 <= k1 <= k2 <= gs.len(),
    ensures
        total_sum(gs, k1) <= total_sum(gs, k2),
    decreases k2 - k1,
{
    if k1 < k2 {
        lemma_total_le(gs, k1, k2 - 1);
        lemma_row_sum_le(gs, k2 - 1, k2 - 1, gs.len() as int);
    }
}

/// The summed distance of every galaxy pair; `None` past the 64-bit range.
pub fn distances_sum(galaxies: &Vec<(i64, i64)>) -> (r: Option<i64>)
    ensures
        match r {
            Some(v) => v == spec_distances(int_pairs(galaxies@)),
            None => spec_distances(int_pairs(galaxies@)) > i64::MAX,
        },
{
    let ghost gp = int_pairs(galaxies@);
    let mut acc: i64 = 0;
    let mut i: usize = 0;
    while i < galaxies.len()
        invariant
            0 <= i <= galaxies@.len(),
            gp == int_pairs(galaxies@),
            acc == total_sum(gp, i as int),
            acc >= 0,
        decreases galaxies@.len() - i,
    {
        let mut jj: usize = i;
        while jj < galaxies.len()
            invariant
                i <= jj <= galaxies@.len(),
                i < galaxies@.len(),
                gp == int_pairs(galaxies@),
                acc == total_sum(gp, i as int) + row_sum(gp, i as int, jj as int),
                acc >= 0,
            decreases galaxies@.len() - jj,
        {
            let a = galaxies[i];
            let b = galaxies[jj];
            let dx: i128 = if a.0 >= b.0 {
                (a.0 as i128) - (b.0 as i128)
            } else {
                (b.0 as i128) - (a.0 as i128)
            };
            let dy: i128 = if a.1 >= b.1 {
                (a.1 as i128) - (b.1 as i128)
            } else {
                (b.1 as i128) - (a.1 as i128)
            };
            let term: i128 = dx + dy;
            proof {
                assert(term == pair_dist(gp[i as int], gp[jj as int]));
                assert(term >= 0);
            }
            if term > i64::MAX as i128 || acc.checked_add(term as i64).is_none() {
                proof {
                    assert(total_sum(gp, i as int) + row_sum(gp, i as int, jj + 1)
                        > i64::MAX);
                    lemma_row_sum_le(gp, i as int, jj + 1, gp.len() as int);
                    lemma_total_le(gp, i + 1, gp.len() as int);
                }
                return None;
            }
            acc = acc + (term as i64);
            jj = jj + 1;
        }
        i = i + 1;
    }
    Some(acc)
}

/// Sum of pair distances after doubling every empty row and column.
pub fn part1(input: &Vec<Vec<i64>>) -> (r: Option<i64>)
    requires
        forall|j: int|
            0 <= j < input@.len() ==> forall|t: int|
                0 <= t < (#[trigger] input@[j])@.len() ==> 0 <= #[trigger] input@[j]@[t],
    ensures
        match r {
            Some(v) => {
                &&& expand_fits(rows_views(input@), 2)
                &&& v == spec_distances(spec_expanded(rows_views(input@), 2))
            },
            None => !expand_fits(rows_views(input@), 2) || spec_distances(
                spec_expanded(rows_views(input@), 2),
            ) > i64::MAX,
        },
{
    match expand(input, 2) {
        Some(ev) => {
            proof {
                assert(int_pairs(ev@) =~= spec_expanded(rows_views(input@), 2));
            }
            distances_sum(&ev)
        },
        None => None,
    }
}

/// The same with every empty row and column counting a million times.
pub fn part2(input: &Vec<Vec<i64>>) -> (r: Option<i64>)
    requires
        forall|j: int|
            0 <= j < input@.len() ==> forall|t: int|
                0 <= t < (#[trigger] input@[j])@.len() ==> 0 <= #[trigger] input@[j]@[t],
    ensures
        match r {
            Some(v) => {
                &&& expand_fits(rows_views(input@), 1000000)
                &&& v == spec_distances(spec_expanded(rows_views(input@), 1000000))
            },
            None => !expand_fits(rows_views(input@), 1000000) || spec_distances(
                spec_expanded(rows_views(input@), 1000000),
            ) > i64::MAX,
        },
{
    match expand(input, 1000000) {
        Some(ev) => {
            proof {
                assert(int_pairs(ev@) =~= spec_expanded(rows_views(input@), 1000000));
            }
            distances_sum(&ev)
        },
        None => None,
    }
}

} // verus!
