//! Engine-schematic puzzle: numbers next to a symbol are part numbers;
//! a star touching exactly two numbers is a gear.
use vstd::prelude::*;

use crate::parsing::{byte_views, is_digit, spec_lines, split_lines};
use vstd::string::StringSliceAdditionalSpecFns;

verus! {

#[derive(Debug, PartialEq, Eq, Structural, Clone, Copy)]
pub struct Part {
    pub value: i64,
    pub start: i32,
    pub end: i32,
}

#[derive(Debug, PartialEq, Eq, Structural, Clone, Copy)]
pub struct Symbol {
    pub symbol: u8,
    pub x: i32,
}

pub struct RowData {
    pub parts: Vec<Part>,
    pub syms: Vec<Symbol>,
}

/// One schematic: the numbers and symbols of each line, top to bottom.
pub struct Schematic {
    pub rows: Vec<RowData>,
}

pub open spec fn rows_views(rs: Seq<RowData>) -> Seq<(Seq<Part>, Seq<Symbol>)> {
    Seq::new(rs.len(), |i: int| (rs[i].parts@, rs[i].syms@))
}

/// The numbers, symbols and pending digit run after the first `i` bytes
/// of a line: a dot or symbol closes a run, a symbol is also recorded.
pub open spec fn line_scan(line: Seq<u8>, i: int) -> (Seq<Part>, Seq<Symbol>, Option<(int, int)>)
    decreases i,
{
    if i <= 0 {
        (Seq::empty(), Seq::empty(), None)
    } else {
        let (parts, syms, pend) = line_scan(line, i - 1);
        let c = line[i - 1];
        if is_digit(c) {
            match pend {
                Some((v, st)) => (parts, syms, Some((v * 10 + (c - 48), st))),
                None => (parts, syms, Some(((c - 48) as int, i - 1))),
            }
        } else if c == 46 {
            match pend {
                Some((v, st)) => (
                    parts.push(Part { value: v as i64, start: st as i32, end: (i - 2) as i32 }),
                    syms,
                    None,
                ),
                None => (parts, syms, None),
            }
        } else {
            let syms2 = syms.push(Symbol { symbol: c, x: (i - 1) as i32 });
            match pend {
                Some((v, st)) => (
                    parts.push(Part { value: v as i64, start: st as i32, end: (i - 2) as i32 }),
                    syms2,
                    None,
                ),
                None => (parts, syms2, None),
            }
        }
    }
}

/// Whether every pending value stays inside 64 bits while scanning.
pub open spec fn scan_ok(line: Seq<u8>, i: int) -> bool
    decreases i,
{
    if i <= 0 {
        true
    } else {
        scan_ok(line, i - 1) && {
            let (parts, syms, pend) = line_scan(line, i - 1);
            let c = line[i - 1];
            if is_digit(c) {
                match pend {
                    Some((v, st)) => v * 10 + (c - 48) <= i64::MAX,
                    None => true,
                }
            } else {
                true
            }
        }
    }
}

/// The finished line: a run still open at the end closes there.
pub open spec fn spec_scan_line(line: Seq<u8>) -> (Seq<Part>, Seq<Symbol>) {
    let (parts, syms, pend) = line_scan(line, line.len() as int);
    match pend {
        Some((v, st)) => (
            parts.push(
                Part { value: v as i64, start: st as i32, end: (line.len() - 1) as i32 },
            ),
            syms,
        ),
        None => (parts, syms),
    }
}

fn scan_line(line: &Vec<u8>) -> (r: Option<RowData>)
    requires
        line@.len() <= i32::MAX,
    ensures
        match r {
            Some(rd) => {
                &&& scan_ok(line@, line@.len() as int)
                &&& (rd.parts@, rd.syms@) == spec_scan_line(line@)
            },
            None => !scan_ok(line@, line@.len() as int),
        },
{
    let mut parts: Vec<Part> = Vec::new();
    let mut syms: Vec<Symbol> = Vec::new();
    let mut pv: i64 = 0;
    let mut pst: usize = 0;
    let mut pending: bool = false;
    let mut i: usize = 0;
    while i < line.len()
        invariant
            0 <= i <= line@.len(),
            line@.len() <= i32::MAX,
            scan_ok(line@, i as int),
            pending ==> pv >= 0 && 1 <= i,
            line_scan(line@, i as int) == (
                parts@,
                syms@,
                if pending {
                    Some((pv as int, pst as int))
                } else {
                    None::<(int, int)>
                },
            ),
        decreases line@.len() - i,
    {
        let c = line[i];
        if 48 <= c && c <= 57 {
            let d = (c - 48) as i64;
            if pending {
                let step = match pv.checked_mul(10) {
                    Some(x) => x.checked_add(d),
                    None => None,
                };
                match step {
                    Some(x) => {
                        pv = x;
                    },
                    None => {
                        proof {
                            assert(!scan_ok(line@, i + 1));
                            lemma_scan_ok_mono(line@, i + 1, line@.len() as int);
                        }
                        return None;
                    },
                }
            } else {
                pv = d;
                pst = i;
                pending = true;
            }
        } else if c == 46 {
            if pending {
                parts.push(Part { value: pv, start: pst as i32, end: (i - 1) as i32 });
                pending = false;
            }
        } else {
            syms.push(Symbol { symbol: c, x: i as i32 });
            if pending {
                parts.push(Part { value: pv, start: pst as i32, end: (i - 1) as i32 });
                pending = false;
            }
        }
        i = i + 1;
    }
    if pending {
        parts.push(Part { value: pv, start: pst as i32, end: (line.len() - 1) as i32 });
    }
    Some(RowData { parts, syms })
}

proof fn lemma_scan_ok_mono(line: Seq<u8>, i: int, n: int)
    requires
        0 <= i <= n,
        !scan_ok(line, i),
    ensures
        !scan_ok(line, n),
    decreases n - i,
{
    if i < n {
        lemma_scan_ok_mono(line, i + 1, n);
    }
}

pub open spec fn spec_parse_rows(ls: Seq<Seq<u8>>, i: int) -> Option<Seq<(Seq<Part>, Seq<Symbol>)>>
    decreases i,
{
    if i <= 0 {
        Some(Seq::empty())
    } else {
        match spec_parse_rows(ls, i - 1) {
            Some(front) => {
                if ls[i - 1].len() <= i32::MAX && scan_ok(ls[i - 1], ls[i - 1].len() as int) {
                    Some(front.push(spec_scan_line(ls[i - 1])))
                } else {
                    None
                }
            },
            None => None,
        }
    }
}

proof fn lemma_parse_rows_none(ls: Seq<Seq<u8>>, i: int, n: int)
    requires
        0 <= i <= n,
        spec_parse_rows(ls, i) is None,
    ensures
        spec_parse_rows(ls, n) is None,
    decreases n - i,
{
    if i < n {
        lemma_parse_rows_none(ls, i + 1, n);
    }
}

/// The schematic; `None` on a line too wide for 32-bit columns or a
/// number too large for 64 bits.
pub fn parse(input: &str) -> (r: Option<Schematic>)
    ensures
        match r {
            Some(s) => Some(rows_views(s.rows@)) == spec_parse_rows(
                spec_lines(input.spec_bytes()),
                spec_lines(input.spec_bytes()).len() as int,
            ),
            None => spec_parse_rows(
                spec_lines(input.spec_bytes()),
                spec_lines(input.spec_bytes()).len() as int,
            ) is None,
        },
{
    let bytes = input.as_bytes();
    let lines = split_lines(bytes);
    let ghost lv = spec_lines(input.spec_bytes());
    let mut rows: Vec<RowData> = Vec::new();
    let mut j: usize = 0;
    proof {
        assert(rows_views(rows@) =~= Seq::<(Seq<Part>, Seq<Symbol>)>::empty());
    }
    while j < lines.len()
        invariant
            0 <= j <= lines@.len(),
            lv == spec_lines(input.spec_bytes()),
            byte_views(lines@) == lv,
            spec_parse_rows(lv, j as int) == Some(rows_views(rows@)),
        decreases lines@.len() - j,
    {
        let line = &lines[j];
        proof {
            assert(lv[j as int] == lines@[j as int]@);
        }
        if line.len() as u64 > i32::MAX as u64 {
            proof {
                lemma_parse_rows_none(lv, j + 1, lv.len() as int);
            }
            return None;
        }
        match scan_line(line) {
            Some(rd) => {
                let ghost old_rv = rows_views(rows@);
                rows.push(rd);
                proof {
                    assert(rows_views(rows@) =~= old_rv.push(
                        (rows@.last().parts@, rows@.last().syms@),
                    ));
                }
            },
            None => {
                proof {
                    lemma_parse_rows_none(lv, j + 1, lv.len() as int);
                }
                return None;
            },
        }
        j = j + 1;
    }
    Some(Schematic { rows })
}

/// Whether a symbol touches the span, in the rows above, at and below.
pub open spec fn has_adj_symbol(
    rows: Seq<(Seq<Part>, Seq<Symbol>)>,
    y: int,
    start: int,
    end: int,
) -> bool {
    exists|yy: int, t: int|
        y - 1 <= yy <= y + 1 && 0 <= yy < rows.len() && 0 <= t < rows[yy].1.len() && start - 1
            <= (#[trigger] rows[yy].1[t]).x <= end + 1
}

fn row_has_adj(rows: &Vec<RowData>, yy: usize, start: i32, end: i32) -> (r: bool)
    requires
        yy < rows@.len(),
    ensures
        r == exists|t: int|
            0 <= t < rows_views(rows@)[yy as int].1.len() && start - 1 <= (
            #[trigger] rows_views(rows@)[yy as int].1[t]).x as int <= end + 1,
{
    let ghost rv = rows_views(rows@);
    let syms = &rows[yy].syms;
    proof {
        assert(rv[yy as int].1 == rows@[yy as int].syms@);
    }
    let mut t: usize = 0;
    while t < syms.len()
        invariant
            0 <= t <= syms@.len(),
            rv == rows_views(rows@),
            yy < rows@.len(),
            syms@ == rv[yy as int].1,
            forall|u: int|
                0 <= u < t ==> !(start - 1 <= (#[trigger] rv[yy as int].1[u]).x as int <= end
                    + 1),
        decreases syms@.len() - t,
    {
        let x = syms[t].x;
        if (start as i64) - 1 <= x as i64 && (x as i64) <= (end as i64) + 1 {
            return true;
        }
        t = t + 1;
    }
    false
}

fn part_has_adj(rows: &Vec<RowData>, y: usize, start: i32, end: i32) -> (r: bool)
    requires
        y < rows@.len(),
    ensures
        r == has_adj_symbol(rows_views(rows@), y as int, start as int, end as int),
{
    let ghost rv = rows_views(rows@);
    if y > 0 && row_has_adj(rows, y - 1, start, end) {
        return true;
    }
    if row_has_adj(rows, y, start, end) {
        return true;
    }
    let n = rows.len();
    if y < n - 1 && row_has_adj(rows, y + 1, start, end) {
        return true;
    }
    proof {
        assert(!has_adj_symbol(rv, y as int, start as int, end as int)) by {
            if has_adj_symbol(rv, y as int, start as int, end as int) {
                let (yy, t) = choose|yy: int, t: int|
                    y - 1 <= yy <= y + 1 && 0 <= yy < rv.len() && 0 <= t < rv[yy].1.len() && start
                        - 1 <= (#[trigger] rv[yy].1[t]).x <= end + 1;
                assert(yy == y - 1 || yy == y || yy == y + 1);
            }
        }
    }
    false
}

/// Sum of the part numbers of the first `i` rows that touch a symbol.
pub open spec fn spec_part1(rows: Seq<(Seq<Part>, Seq<Symbol>)>, i: int) -> int
    decreases i,
{
    if i <= 0 {
        0
    } else {
        spec_part1(rows, i - 1) + row_part_sum(rows, i - 1, rows[i - 1].0.len() as int)
    }
}

pub open spec fn row_part_sum(rows: Seq<(Seq<Part>, Seq<Symbol>)>, y: int, t: int) -> int
    decreases t,
{
    if t <= 0 {
        0
    } else {
        row_part_sum(rows, y, t - 1) + {
            let p = rows[y].0[t - 1];
            if has_adj_symbol(rows, y, p.start as int, p.end as int) {
                p.value as int
            } else {
                0
            }
        }
    }
}

/// All parsed part values are non-negative, so partial sums only grow.
pub open spec fn parts_nonneg(rows: Seq<(Seq<Part>, Seq<Symbol>)>) -> bool {
    forall|y: int, t: int|
        0 <= y < rows.len() && 0 <= t < rows[y].0.len() ==> (#[trigger] rows[y].0[t]).value >= 0
}

proof fn lemma_row_sum_le3(rows: Seq<(Seq<Part>, Seq<Symbol>)>, y: int, t1: int, t2: int)
    requires
        parts_nonneg(rows),
        0 <= y < rows.len(),
        0 <= t1 <= t2 <= rows[y].0.len(),
    ensures
        row_part_sum(rows, y, t1) <= row_part_sum(rows, y, t2),
    decreases t2 - t1,
{
    if t1 < t2 {
        lemma_row_sum_le3(rows, y, t1, t2 - 1);
    }
}

proof fn lemma_part1_le3(rows: Seq<(Seq<Part>, Seq<Symbol>)>, i1: int, i2: int)
    requires
        parts_nonneg(rows),
        0 <= i1 <= i2 <= rows.len(),
    ensures
        spec_part1(rows, i1) <= spec_part1(rows, i2),
    decreases i2 - i1,
{
    if i1 < i2 {
        lemma_part1_le3(rows, i1, i2 - 1);
        lemma_row_sum_le3(rows, i2 - 1, 0, rows[i2 - 1].0.len() as int);
    }
}

/// Sum of all part numbers that touch a symbol; `None` past 64 bits.
pub fn part1(input: &Schematic) -> (r: Option<i64>)
    requires
        parts_nonneg(rows_views(input.rows@)),
    ensures
        ({
            let rv = rows_views(input.rows@);
            match r {
                Some(v) => v == spec_part1(rv, rv.len() as int),
                None => spec_part1(rv, rv.len() as int) > i64::MAX,
            }
        }),
{
    let ghost rv = rows_views(input.rows@);
    let mut acc: i64 = 0;
    let mut y: usize = 0;
    while y < input.rows.len()
        invariant
            0 <= y <= input.rows@.len(),
            rv == rows_views(input.rows@),
            parts_nonneg(rv),
            acc == spec_part1(rv, y as int),
            acc >= 0,
        decreases input.rows@.len() - y,
    {
        let nparts = input.rows[y].parts.len();
        proof {
            assert(rv[y as int].0 == input.rows@[y as int].parts@);
        }
        let mut t: usize = 0;
        while t < nparts
            invariant
                0 <= t <= nparts,
                y < input.rows@.len(),
                rv == rows_views(input.rows@),
                parts_nonneg(rv),
                nparts == rv[y as int].0.len(),
                acc == spec_part1(rv, y as int) + row_part_sum(rv, y as int, t as int),
                acc >= 0,
            decreases nparts - t,
        {
            let p = input.rows[y].parts[t];
            proof {
                assert(rv[y as int].0[t as int] == p);
            }
            if part_has_adj(&input.rows, y, p.start, p.end) {
                match acc.checked_add(p.value) {
                    Some(x) => {
                        acc = x;
                    },
                    None => {
                        proof {
                            lemma_row_sum_le3(rv, y as int, t + 1, rv[y as int].0.len() as int);
                            lemma_part1_le3(rv, y + 1, rv.len() as int);
                        }
                        return None;
                    },
                }
            }
            t = t + 1;
        }
        y = y + 1;
    }
    Some(acc)
}

/// The part values around a star, rows top to bottom, parts in order.
pub open spec fn row_adj_values(parts: Seq<Part>, x: int, t: int) -> Seq<i64>
    decreases t,
{
    if t <= 0 {
        Seq::empty()
    } else {
        let front = row_adj_values(parts, x, t - 1);
        let p = parts[t - 1];
        if p.start - 1 <= x <= p.end + 1 {
            front.push(p.value)
        } else {
            front
        }
    }
}

pub open spec fn adj_values(rows: Seq<(Seq<Part>, Seq<Symbol>)>, x: int, y: int) -> Seq<i64> {
    let above = if y - 1 >= 0 && y - 1 < rows.len() {
        row_adj_values(rows[y - 1].0, x, rows[y - 1].0.len() as int)
    } else {
        Seq::empty()
    };
    let here = if 0 <= y < rows.len() {
        row_adj_values(rows[y].0, x, rows[y].0.len() as int)
    } else {
        Seq::empty()
    };
    let below = if 0 <= y + 1 < rows.len() {
        row_adj_values(rows[y + 1].0, x, rows[y + 1].0.len() as int)
    } else {
        Seq::empty()
    };
    above + here + below
}

/// A star's gear ratio: the product of exactly two adjacent values.
pub open spec fn gear_ratio(rows: Seq<(Seq<Part>, Seq<Symbol>)>, x: int, y: int) -> int {
    let vs = adj_values(rows, x, y);
    if vs.len() == 2 {
        vs[0] * vs[1]
    } else {
        0
    }
}

/// Sum of gear ratios over the stars of the first `i` rows.
pub open spec fn spec_part2(rows: Seq<(Seq<Part>, Seq<Symbol>)>, i: int) -> int
    decreases i,
{
    if i <= 0 {
        0
    } else {
        spec_part2(rows, i - 1) + row_gear_sum(rows, i - 1, rows[i - 1].1.len() as int)
    }
}

pub open spec fn row_gear_sum(rows: Seq<(Seq<Part>, Seq<Symbol>)>, y: int, t: int) -> int
    decreases t,
{
    if t <= 0 {
        0
    } else {
        row_gear_sum(rows, y, t - 1) + {
            let s = rows[y].1[t - 1];
            if s.symbol == 42 {
                gear_ratio(rows, s.x as int, y)
            } else {
                0
            }
        }
    }
}

fn row_adj_exec(parts: &Vec<Part>, x: i32, out: &mut Vec<i64>)
    ensures
        final(out)@ == old(out)@ + row_adj_values(parts@, x as int, parts@.len() as int),
{
    let ghost base = out@;
    let mut t: usize = 0;
    proof {
        assert(out@ =~= base + row_adj_values(parts@, x as int, 0));
    }
    while t < parts.len()
        invariant
            0 <= t <= parts@.len(),
            out@ == base + row_adj_values(parts@, x as int, t as int),
        decreases parts@.len() - t,
    {
        let p = parts[t];
        if (p.start as i64) - 1 <= x as i64 && (x as i64) <= (p.end as i64) + 1 {
            out.push(p.value);
            proof {
                assert(out@ =~= base + row_adj_values(parts@, x as int, t + 1));
            }
        }
        t = t + 1;
    }
}

/// Sum of the gear ratios of every star touching exactly two numbers;
/// `None` when a product or the sum leaves 64 bits.
pub fn part2(input: &Schematic) -> (r: Option<i64>)
    requires
        parts_nonneg(rows_views(input.rows@)),
    ensures
        ({
            let rv = rows_views(input.rows@);
            match r {
                Some(v) => v == spec_part2(rv, rv.len() as int),
                None => spec_part2(rv, rv.len() as int) > i64::MAX || (exists|y: int, t: int|
                    0 <= y < rv.len() && 0 <= t < rv[y].1.len() && (#[trigger] rv[y].1[t]).symbol
                        == 42 && gear_ratio(rv, rv[y].1[t].x as int, y) > i64::MAX),
            }
        }),
{
    let ghost rv = rows_views(input.rows@);
    let mut acc: i64 = 0;
    let mut y: usize = 0;
    while y < input.rows.len()
        invariant
            0 <= y <= input.rows@.len(),
            rv == rows_views(input.rows@),
            parts_nonneg(rv),
            acc == spec_part2(rv, y as int),
            acc >= 0,
        decreases input.rows@.len() - y,
    {
        let nsyms = input.rows[y].syms.len();
        proof {
            assert(rv[y as int].1 == input.rows@[y as int].syms@);
        }
        let mut t: usize = 0;
        while t < nsyms
            invariant
                0 <= t <= nsyms,
                y < input.rows@.len(),
                rv == rows_views(input.rows@),
                parts_nonneg(rv),
                nsyms == rv[y as int].1.len(),
                acc == spec_part2(rv, y as int) + row_gear_sum(rv, y as int, t as int),
                acc >= 0,
            decreases nsyms - t,
        {
            let s = input.rows[y].syms[t];
            proof {
                assert(rv[y as int].1[t as int] == s);
            }
            if s.symbol == 42 {
                let mut vals: Vec<i64> = Vec::new();
                if y > 0 {
                    row_adj_exec(&input.rows[y - 1].parts, s.x, &mut vals);
                    proof {
                        assert(rv[(y - 1) as int].0 == input.rows@[(y - 1) as int].parts@);
                    }
                }
                row_adj_exec(&input.rows[y].parts, s.x, &mut vals);
                let nrows = input.rows.len();
                if y < nrows - 1 {
                    row_adj_exec(&input.rows[y + 1].parts, s.x, &mut vals);
                    proof {
                        assert(rv[(y + 1) as int].0 == input.rows@[(y + 1) as int].parts@);
                    }
                }
                let ghost avs = adj_values(rv, s.x as int, y as int);
                proof {
                    assert(vals@ =~= avs);
                }
                if vals.len() == 2 {
                    let v0 = vals[0];
                    let v1 = vals[1];
                    let prod = match v0.checked_mul(v1) {
                        Some(x) => x,
                        None => {
                            proof {
                                assert(gear_ratio(rv, s.x as int, y as int) > i64::MAX) by {
                                    assert(avs[0] == v0 && avs[1] == v1);
                                    assert(v0 >= 0 && v1 >= 0) by {
                                        lemma_adj_values_nonneg(rv, s.x as int, y as int);
                                    }
                                    assert(v0 * v1 > i64::MAX || v0 * v1 < i64::MIN);
                                    assert(v0 * v1 >= 0) by (nonlinear_arith)
                                        requires
                                            v0 >= 0,
                                            v1 >= 0,
                                    ;
                                }
                            }
                            return None;
                        },
                    };
                    proof {
                        assert(v0 >= 0 && v1 >= 0) by {
                            lemma_adj_values_nonneg(rv, s.x as int, y as int);
                            assert(avs[0] == v0 && avs[1] == v1);
                        }
                        assert(prod >= 0) by (nonlinear_arith)
                            requires
                                prod == v0 * v1,
                                v0 >= 0,
                                v1 >= 0,
                        ;
                    }
                    match acc.checked_add(prod) {
                        Some(x) => {
                            acc = x;
                        },
                        None => {
                            proof {
                                lemma_gear_sum_le(rv, y as int, t + 1, rv[y as int].1.len() as int);
                                lemma_part2_le(rv, y + 1, rv.len() as int);
                            }
                            return None;
                        },
                    }
                }
            }
            t = t + 1;
        }
        y = y + 1;
    }
    Some(acc)
}

proof fn lemma_row_adj_nonneg(parts: Seq<Part>, x: int, t: int)
    requires
        forall|u: int| 0 <= u < parts.len() ==> (#[trigger] parts[u]).value >= 0,
        t <= parts.len(),
    ensures
        forall|i: int|
            0 <= i < row_adj_values(parts, x, t).len() ==> #[trigger] row_adj_values(
                parts,
                x,
                t,
            )[i] >= 0,
    decreases t,
{
    if t > 0 {
        lemma_row_adj_nonneg(parts, x, t - 1);
        let front = row_adj_values(parts, x, t - 1);
        let cur = row_adj_values(parts, x, t);
        let p = parts[t - 1];
        if p.start - 1 <= x <= p.end + 1 {
            assert(cur == front.push(p.value));
            assert forall|i: int| 0 <= i < cur.len() implies #[trigger] cur[i] >= 0 by {
                if i < front.len() {
                    assert(cur[i] == front[i]);
                } else {
                    assert(cur[i] == p.value);
                }
            }
        } else {
            assert(cur == front);
        }
    }
}

proof fn lemma_adj_values_nonneg(rows: Seq<(Seq<Part>, Seq<Symbol>)>, x: int, y: int)
    requires
        parts_nonneg(rows),
    ensures
        forall|i: int|
            0 <= i < adj_values(rows, x, y).len() ==> #[trigger] adj_values(rows, x, y)[i] >= 0,
{
    if y - 1 >= 0 && y - 1 < rows.len() {
        lemma_row_adj_nonneg(rows[y - 1].0, x, rows[y - 1].0.len() as int);
    }
    if 0 <= y < rows.len() {
        lemma_row_adj_nonneg(rows[y].0, x, rows[y].0.len() as int);
    }
    if 0 <= y + 1 < rows.len() {
        lemma_row_adj_nonneg(rows[y + 1].0, x, rows[y + 1].0.len() as int);
    }
}

proof fn lemma_gear_nonneg(rows: Seq<(Seq<Part>, Seq<Symbol>)>, x: int, y: int)
    requires
        parts_nonneg(rows),
    ensures
        gear_ratio(rows, x, y) >= 0,
{
    let vs = adj_values(rows, x, y);
    if vs.len() == 2 {
        lemma_adj_values_nonneg(rows, x, y);
        assert(vs[0] * vs[1] >= 0) by (nonlinear_arith)
            requires
                vs[0] >= 0,
                vs[1] >= 0,
        ;
    }
}

proof fn lemma_gear_sum_le(rows: Seq<(Seq<Part>, Seq<Symbol>)>, y: int, t1: int, t2: int)
    requires
        parts_nonneg(rows),
        0 <= y < rows.len(),
        0 <= t1 <= t2 <= rows[y].1.len(),
    ensures
        row_gear_sum(rows, y, t1) <= row_gear_sum(rows, y, t2),
    decreases t2 - t1,
{
    if t1 < t2 {
        lemma_gear_sum_le(rows, y, t1, t2 - 1);
        if rows[y].1[t2 - 1].symbol == 42 {
            lemma_gear_nonneg(rows, rows[y].1[t2 - 1].x as int, y);
        }
    }
}

proof fn lemma_part2_le(rows: Seq<(Seq<Part>, Seq<Symbol>)>, i1: int, i2: int)
    requires
        parts_nonneg(rows),
        0 <= i1 <= i2 <= rows.len(),
    ensures
        spec_part2(rows, i1) <= spec_part2(rows, i2),
    decreases i2 - i1,
{
    if i1 < i2 {
        lemma_part2_le(rows, i1, i2 - 1);
        lemma_gear_sum_le(rows, i2 - 1, 0, rows[i2 - 1].1.len() as int);
    }
}

} // verus!
