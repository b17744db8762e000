//! Almanac puzzle: seeds run through a chain of range maps; find the
//! smallest final location, for single seeds and for whole seed ranges.
use vstd::prelude::*;

use crate::parsing::{
    byte_views, group_views, spec_groups, spec_lines, split_lines, group_lines, spec_tokens,
    tokens, spec_parse_u64_all, parse_u64_all,
};
use crate::sorting::{pair_views, spec_sort, sort_pairs, lemma_sort_len, lemma_sort_payload_bound};
use vstd::string::StringSliceAdditionalSpecFns;

verus! {

#[derive(Debug, PartialEq, Eq, Structural, Clone, Copy)]
pub struct AlmanacRange {
    pub dst: u64,
    pub src: u64,
    pub len: u64,
}

pub struct Almanac {
    pub seeds: Vec<u64>,
    pub maps: Vec<Vec<AlmanacRange>>,
}

/// Ranges whose ends stay inside 64 bits on both sides.
pub open spec fn range_ok(r: AlmanacRange) -> bool {
    r.src + r.len <= u64::MAX && r.dst + r.len <= u64::MAX
}

pub open spec fn maps_views(ms: Seq<Vec<AlmanacRange>>) -> Seq<Seq<AlmanacRange>> {
    Seq::new(ms.len(), |i: int| ms[i]@)
}

pub open spec fn almanac_ok(seeds: Seq<u64>, maps: Seq<Seq<AlmanacRange>>) -> bool {
    forall|j: int, k: int|
        0 <= j < maps.len() && 0 <= k < maps[j].len() ==> range_ok(#[trigger] maps[j][k])
}

/// A value sent through one map: the first matching range shifts it.
pub open spec fn apply_from(rs: Seq<AlmanacRange>, v: int, k: int) -> int
    decreases rs.len() - k,
{
    if !(0 <= k < rs.len()) {
        v
    } else if rs[k].src <= v < rs[k].src + rs[k].len {
        rs[k].dst + (v - rs[k].src)
    } else {
        apply_from(rs, v, k + 1)
    }
}

/// A value sent through the first `j` maps.
pub open spec fn through_maps(maps: Seq<Seq<AlmanacRange>>, v: int, j: int) -> int
    decreases j,
{
    if j <= 0 {
        v
    } else {
        apply_from(maps[j - 1], through_maps(maps, v, j - 1), 0)
    }
}

/// The smallest final location of the first `i` seeds.
pub open spec fn spec_part1(seeds: Seq<u64>, maps: Seq<Seq<AlmanacRange>>, i: int) -> Option<int>
    decreases i,
{
    if i <= 0 {
        None
    } else {
        let v = through_maps(maps, seeds[i - 1] as int, maps.len() as int);
        match spec_part1(seeds, maps, i - 1) {
            Some(m) => if v < m {
                Some(v)
            } else {
                Some(m)
            },
            None => Some(v),
        }
    }
}

proof fn lemma_through_bounds(maps: Seq<Seq<AlmanacRange>>, v: int, j: int)
    requires
        almanac_ok(Seq::empty(), maps),
        0 <= v <= u64::MAX,
        0 <= j <= maps.len(),
    ensures
        0 <= through_maps(maps, v, j) <= u64::MAX,
    decreases j,
{
    if j > 0 {
        lemma_through_bounds(maps, v, j - 1);
        lemma_apply_bounds(maps[j - 1], through_maps(maps, v, j - 1), 0);
    }
}

proof fn lemma_apply_bounds(rs: Seq<AlmanacRange>, v: int, k: int)
    requires
        forall|t: int| 0 <= t < rs.len() ==> range_ok(#[trigger] rs[t]),
        0 <= v <= u64::MAX,
        k >= 0,
    ensures
        0 <= apply_from(rs, v, k) <= u64::MAX,
    decreases rs.len() - k,
{
    if 0 <= k < rs.len() && !(rs[k].src <= v < rs[k].src + rs[k].len) {
        lemma_apply_bounds(rs, v, k + 1);
    }
}

fn apply_map(rs: &Vec<AlmanacRange>, v: u64) -> (r: u64)
    requires
        forall|t: int| 0 <= t < rs@.len() ==> range_ok(#[trigger] rs@[t]),
    ensures
        r == apply_from(rs@, v as int, 0),
{
    let mut k: usize = 0;
    while k < rs.len()
        invariant
            0 <= k <= rs@.len(),
            forall|t: int| 0 <= t < rs@.len() ==> range_ok(#[trigger] rs@[t]),
            apply_from(rs@, v as int, 0) == apply_from(rs@, v as int, k as int),
        decreases rs@.len() - k,
    {
        let r = rs[k];
        if r.src <= v && v - r.src < r.len {
            return r.dst + (v - r.src);
        }
        k = k + 1;
    }
    v
}

/// The smallest location any single seed reaches; `None` without seeds.
pub fn part1(input: &Almanac) -> (r: Option<u64>)
    requires
        almanac_ok(input.seeds@, maps_views(input.maps@)),
    ensures
        ({
            let sp = spec_part1(
                input.seeds@,
                maps_views(input.maps@),
                input.seeds@.len() as int,
            );
            match r {
                Some(v) => sp == Some(v as int),
                None => sp is None,
            }
        }),
{
    let ghost mv = maps_views(input.maps@);
    let mut best: Option<u64> = None;
    let mut i: usize = 0;
    while i < input.seeds.len()
        invariant
            0 <= i <= input.seeds@.len(),
            mv == maps_views(input.maps@),
            almanac_ok(input.seeds@, mv),
            match best {
                Some(b) => spec_part1(input.seeds@, mv, i as int) == Some(b as int),
                None => i == 0,
            },
        decreases input.seeds@.len() - i,
    {
        let mut v = input.seeds[i];
        let mut j: usize = 0;
        while j < input.maps.len()
            invariant
                0 <= j <= input.maps@.len(),
                mv == maps_views(input.maps@),
                almanac_ok(input.seeds@, mv),
                i < input.seeds@.len(),
                v == through_maps(mv, input.seeds@[i as int] as int, j as int),
            decreases input.maps@.len() - j,
        {
            proof {
                assert(mv[j as int] == input.maps@[j as int]@);
                lemma_through_bounds(mv, input.seeds@[i as int] as int, j as int);
                lemma_apply_bounds(mv[j as int], v as int, 0);
            }
            v = apply_map(&input.maps[j], v);
            j = j + 1;
        }
        best = match best {
            Some(b) => {
                if v < b {
                    Some(v)
                } else {
                    Some(b)
                }
            },
            None => Some(v),
        };
        i = i + 1;
    }
    best
}

pub open spec fn iv_views(v: Seq<(u64, u64)>) -> Seq<(int, int)> {
    Seq::new(v.len(), |i: int| (v[i].0 as int, v[i].1 as int))
}

/// An interval split and shifted by the ranges from `k` on, in order:
/// the part below a range passes unchanged, the overlap shifts, and the
/// rest continues with later ranges.
pub open spec fn map_interval(rs: Seq<AlmanacRange>, k: int, start: int, len: int) -> Seq<
    (int, int),
>
    decreases rs.len() - k,
{
    if len <= 0 {
        Seq::empty()
    } else if !(0 <= k < rs.len()) {
        seq![(start, len)]
    } else {
        let r = rs[k];
        if r.src + r.len <= start {
            map_interval(rs, k + 1, start, len)
        } else if start + len <= r.src {
            seq![(start, len)]
        } else {
            let lo = if start >= r.src {
                start
            } else {
                r.src as int
            };
            let hi = if start + len <= r.src + r.len {
                start + len
            } else {
                r.src + r.len
            };
            let mapped = seq![(r.dst + (lo - r.src), hi - lo)];
            let prefix = if start < r.src {
                seq![(start, r.src - start)]
            } else {
                Seq::<(int, int)>::empty()
            };
            prefix + mapped + map_interval(rs, k + 1, hi, start + len - hi)
        }
    }
}

fn map_interval_exec(rs: &Vec<AlmanacRange>, k: usize, start: u64, len: u64) -> (r: Vec<
    (u64, u64),
>)
    requires
        forall|t: int| 0 <= t < rs@.len() ==> range_ok(#[trigger] rs@[t]),
        start + len <= u64::MAX,
    ensures
        iv_views(r@) == map_interval(rs@, k as int, start as int, len as int),
    decreases rs@.len() - k,
{
    let mut out: Vec<(u64, u64)> = Vec::new();
    if len == 0 {
        proof {
            assert(iv_views(out@) =~= map_interval(rs@, k as int, start as int, len as int));
        }
        return out;
    }
    if k >= rs.len() {
        out.push((start, len));
        proof {
            assert(iv_views(out@) =~= map_interval(rs@, k as int, start as int, len as int));
        }
        return out;
    }
    let r = rs[k];
    if r.len <= start && r.src <= start - r.len {
        // the range ends at or before the interval: r.src + r.len <= start
        let rest = map_interval_exec(rs, k + 1, start, len);
        proof {
            assert(iv_views(rest@) =~= map_interval(rs@, k as int, start as int, len as int));
        }
        return rest;
    }
    if r.src >= len && start <= r.src - len {
        out.push((start, len));
        proof {
            assert(iv_views(out@) =~= map_interval(rs@, k as int, start as int, len as int));
        }
        return out;
    }
    let lo: u64 = if start >= r.src {
        start
    } else {
        r.src
    };
    let hi: u64 = if start + len <= r.src + r.len {
        start + len
    } else {
        r.src + r.len
    };
    if start < r.src {
        out.push((start, r.src - start));
    }
    out.push((r.dst + (lo - r.src), hi - lo));
    let mut rest = map_interval_exec(rs, k + 1, hi, start + len - hi);
    let ghost head = iv_views(out@);
    let ghost tail = iv_views(rest@);
    out.append(&mut rest);
    proof {
        assert(iv_views(out@) =~= head + tail);
        assert(iv_views(out@) =~= map_interval(rs@, k as int, start as int, len as int));
    }
    out
}

/// A whole list of intervals sent through one map.
pub open spec fn map_list(rs: Seq<AlmanacRange>, ivs: Seq<(int, int)>, t: int) -> Seq<(int, int)>
    decreases t,
{
    if t <= 0 {
        Seq::empty()
    } else {
        map_list(rs, ivs, t - 1) + map_interval(rs, 0, ivs[t - 1].0, ivs[t - 1].1)
    }
}

/// Intervals sent through the first `j` maps.
pub open spec fn list_through(maps: Seq<Seq<AlmanacRange>>, ivs: Seq<(int, int)>, j: int) -> Seq<
    (int, int),
>
    decreases j,
{
    if j <= 0 {
        ivs
    } else {
        let prev = list_through(maps, ivs, j - 1);
        map_list(maps[j - 1], prev, prev.len() as int)
    }
}

/// The least interval start, if any interval is left.
pub open spec fn min_start(ivs: Seq<(int, int)>, t: int) -> Option<int>
    decreases t,
{
    if t <= 0 {
        None
    } else {
        match min_start(ivs, t - 1) {
            Some(m) => if ivs[t - 1].0 < m {
                Some(ivs[t - 1].0)
            } else {
                Some(m)
            },
            None => Some(ivs[t - 1].0),
        }
    }
}

/// Intervals stay within 64 bits as they pass through well-formed maps.
pub open spec fn ivs_ok(ivs: Seq<(int, int)>) -> bool {
    forall|t: int| 0 <= t < ivs.len() ==> {
        &&& 0 <= (#[trigger] ivs[t]).0
        &&& 0 <= ivs[t].1
        &&& ivs[t].0 + ivs[t].1 <= u64::MAX
    }
}

proof fn lemma_map_interval_ok(rs: Seq<AlmanacRange>, k: int, start: int, len: int)
    requires
        forall|t: int| 0 <= t < rs.len() ==> range_ok(#[trigger] rs[t]),
        0 <= start,
        0 <= len,
        start + len <= u64::MAX,
    ensures
        ivs_ok(map_interval(rs, k, start, len)),
    decreases rs.len() - k,
{
    if len <= 0 {
    } else if !(0 <= k < rs.len()) {
    } else {
        let r = rs[k];
        if r.src + r.len <= start {
            lemma_map_interval_ok(rs, k + 1, start, len);
        } else if start + len <= r.src {
        } else {
            let hi = if start + len <= r.src + r.len {
                start + len
            } else {
                r.src + r.len as int
            };
            lemma_map_interval_ok(rs, k + 1, hi, start + len - hi);
        }
    }
}

proof fn lemma_map_list_ok(rs: Seq<AlmanacRange>, ivs: Seq<(int, int)>, t: int)
    requires
        forall|u: int| 0 <= u < rs.len() ==> range_ok(#[trigger] rs[u]),
        ivs_ok(ivs),
        0 <= t <= ivs.len(),
    ensures
        ivs_ok(map_list(rs, ivs, t)),
    decreases t,
{
    if t > 0 {
        lemma_map_list_ok(rs, ivs, t - 1);
        lemma_map_interval_ok(rs, 0, ivs[t - 1].0, ivs[t - 1].1);
    }
}

fn map_list_exec(rs: &Vec<AlmanacRange>, ivs: &Vec<(u64, u64)>) -> (r: Vec<(u64, u64)>)
    requires
        forall|t: int| 0 <= t < rs@.len() ==> range_ok(#[trigger] rs@[t]),
        ivs_ok(iv_views(ivs@)),
    ensures
        iv_views(r@) == map_list(rs@, iv_views(ivs@), ivs@.len() as int),
{
    let ghost iv = iv_views(ivs@);
    let mut out: Vec<(u64, u64)> = Vec::new();
    let mut t: usize = 0;
    proof {
        assert(iv_views(out@) =~= map_list(rs@, iv, 0));
    }
    while t < ivs.len()
        invariant
            0 <= t <= ivs@.len(),
            iv == iv_views(ivs@),
            forall|u: int| 0 <= u < rs@.len() ==> range_ok(#[trigger] rs@[u]),
            ivs_ok(iv),
            iv_views(out@) == map_list(rs@, iv, t as int),
        decreases ivs@.len() - t,
    {
        let (s, l) = ivs[t];
        proof {
            assert(iv[t as int] == (ivs@[t as int].0 as int, ivs@[t as int].1 as int));
        }
        let mut piece = map_interval_exec(rs, 0, s, l);
        let ghost head = iv_views(out@);
        let ghost tail = iv_views(piece@);
        out.append(&mut piece);
        proof {
            assert(iv_views(out@) =~= head + tail);
        }
        t = t + 1;
    }
    out
}

/// An even seed list whose first `p` (start, count) pairs stay inside the
/// 64-bit rim.
pub open spec fn pairs_ok(seeds: Seq<u64>, p: int) -> bool {
    seeds.len() % 2 == 0 && forall|t: int|
        0 <= t < p ==> #[trigger] seeds[2 * t] + seeds[2 * t + 1] <= u64::MAX
}

/// The smallest location any seed of the first `p` ranges reaches; a pair
/// whose intervals all vanish is skipped.
pub open spec fn spec_part2(seeds: Seq<u64>, maps: Seq<Seq<AlmanacRange>>, p: int) -> Option<int>
    decreases p,
{
    if p <= 0 {
        None
    } else {
        let start = seeds[2 * (p - 1)] as int;
        let len = seeds[2 * (p - 1) + 1] as int;
        let fin = list_through(maps, seq![(start, len)], maps.len() as int);
        let m = min_start(fin, fin.len() as int);
        match (spec_part2(seeds, maps, p - 1), m) {
            (None, mm) => mm,
            (Some(b), Some(v)) => if v < b {
                Some(v)
            } else {
                Some(b)
            },
            (Some(b), None) => Some(b),
        }
    }
}

pub fn part2(input: &Almanac) -> (r: Option<u64>)
    requires
        almanac_ok(input.seeds@, maps_views(input.maps@)),
    ensures
        ({
            let np = (input.seeds@.len() / 2) as int;
            let sp = spec_part2(input.seeds@, maps_views(input.maps@), np);
            match r {
                Some(v) => pairs_ok(input.seeds@, np) && sp == Some(v as int),
                None => !pairs_ok(input.seeds@, np) || sp is None,
            }
        }),
{
    let ghost mv = maps_views(input.maps@);
    if input.seeds.len() % 2 == 1 {
        return None;
    }
    let pairs = input.seeds.len() / 2;
    proof {
        assert(input.seeds@.len() <= usize::MAX);
    }
    let mut best: Option<u64> = None;
    let mut p: usize = 0;
    while p < pairs
        invariant
            0 <= p <= pairs,
            pairs == input.seeds@.len() / 2,
            input.seeds@.len() % 2 == 0,
            input.seeds@.len() <= usize::MAX,
            mv == maps_views(input.maps@),
            almanac_ok(input.seeds@, mv),
            forall|t: int|
                0 <= t < p ==> #[trigger] input.seeds@[2 * t] + input.seeds@[2 * t + 1]
                    <= u64::MAX,
            match best {
                Some(b) => spec_part2(input.seeds@, mv, p as int) == Some(b as int),
                None => spec_part2(input.seeds@, mv, p as int) is None,
            },
        decreases pairs - p,
    {
        proof {
            vstd::arithmetic::div_mod::lemma_fundamental_div_mod(
                input.seeds@.len() as int,
                2,
            );
            assert(2 * p + 1 < input.seeds@.len());
        }
        let start = input.seeds[2 * p];
        let len = input.seeds[2 * p + 1];
        if len > u64::MAX - start {
            proof {
                assert(input.seeds@[2 * (p as int)] + input.seeds@[2 * (p as int) + 1]
                    > u64::MAX);
                assert(!pairs_ok(input.seeds@, pairs as int));
            }
            return None;
        }
        // run this pair's interval through every map
        let mut ivs: Vec<(u64, u64)> = Vec::new();
        ivs.push((start, len));
        let ghost iv0 = seq![(start as int, len as int)];
        proof {
            assert(iv_views(ivs@) =~= iv0);
        }
        let mut j: usize = 0;
        while j < input.maps.len()
            invariant
                0 <= j <= input.maps@.len(),
                mv == maps_views(input.maps@),
                almanac_ok(input.seeds@, mv),
                iv0 == seq![(start as int, len as int)],
                0 <= start as int + len as int <= u64::MAX,
                iv_views(ivs@) == list_through(mv, iv0, j as int),
                ivs_ok(iv_views(ivs@)),
            decreases input.maps@.len() - j,
        {
            proof {
                assert(mv[j as int] == input.maps@[j as int]@);
            }
            let nxt = map_list_exec(&input.maps[j], &ivs);
            proof {
                lemma_map_list_ok(mv[j as int], iv_views(ivs@), iv_views(ivs@).len() as int);
            }
            ivs = nxt;
            j = j + 1;
        }
        // the smallest start of what is left
        let mut m: Option<u64> = None;
        let mut t: usize = 0;
        let ghost fiv = iv_views(ivs@);
        while t < ivs.len()
            invariant
                0 <= t <= ivs@.len(),
                fiv == iv_views(ivs@),
                match m {
                    Some(b) => min_start(fiv, t as int) == Some(b as int),
                    None => t == 0,
                },
            decreases ivs@.len() - t,
        {
            let s = ivs[t].0;
            m = match m {
                Some(b) => {
                    if s < b {
                        Some(s)
                    } else {
                        Some(b)
                    }
                },
                None => Some(s),
            };
            t = t + 1;
        }
        proof {
            if t == 0 {
                assert(min_start(fiv, 0) is None);
            }
        }
        best = match (best, m) {
            (None, mm) => mm,
            (Some(b), Some(v)) => {
                if v < b {
                    Some(v)
                } else {
                    Some(b)
                }
            },
            (Some(b), None) => Some(b),
        };
        p = p + 1;
    }
    best
}

/// A range line: destination start, source start, length, each within
/// reach of 64-bit arithmetic on both sides.
pub open spec fn spec_range(line: Seq<u8>) -> Option<AlmanacRange> {
    match spec_parse_u64_all(spec_tokens(line, 32)) {
        Some(vs) => {
            if vs.len() == 3 && vs[1] + vs[2] <= u64::MAX && vs[0] + vs[2] <= u64::MAX {
                Some(AlmanacRange { dst: vs[0], src: vs[1], len: vs[2] })
            } else {
                None
            }
        },
        None => None,
    }
}

/// One map block: a header line, then range lines, sorted by source.
pub open spec fn spec_map_block(g: Seq<Seq<u8>>) -> Option<Seq<AlmanacRange>> {
    if g.len() < 1 {
        None
    } else {
        match spec_ranges_upto(g, g.len() as int) {
            Some(rs) => Some(
                Seq::new(
                    rs.len(),
                    |i: int|
                        rs[spec_sort(
                            Seq::new(rs.len(), |t: int| (seq![rs[t].src], t as usize)),
                        )[i].1 as int],
                ),
            ),
            None => None,
        }
    }
}

pub open spec fn spec_ranges_upto(g: Seq<Seq<u8>>, i: int) -> Option<Seq<AlmanacRange>>
    decreases i,
{
    if i <= 1 {
        Some(Seq::empty())
    } else {
        match (spec_ranges_upto(g, i - 1), spec_range(g[i - 1])) {
            (Some(front), Some(r)) => Some(front.push(r)),
            _ => None,
        }
    }
}

proof fn lemma_ranges_upto_none(g: Seq<Seq<u8>>, i: int, n: int)
    requires
        1 <= i <= n,
        spec_ranges_upto(g, i) is None,
    ensures
        spec_ranges_upto(g, n) is None,
    decreases n - i,
{
    if i < n {
        lemma_ranges_upto_none(g, i + 1, n);
    }
}

fn parse_map_block(g: &Vec<Vec<u8>>) -> (r: Option<Vec<AlmanacRange>>)
    ensures
        match r {
            Some(v) => spec_map_block(byte_views(g@)) == Some(v@),
            None => spec_map_block(byte_views(g@)) is None,
        },
{
    let ghost gv = byte_views(g@);
    if g.len() < 1 {
        return None;
    }
    let mut rs: Vec<AlmanacRange> = Vec::new();
    let mut i: usize = 1;
    while i < g.len()
        invariant
            1 <= i <= g@.len(),
            gv == byte_views(g@),
            spec_ranges_upto(gv, i as int) == Some(rs@),
        decreases g@.len() - i,
    {
        let line = &g[i];
        let ts = tokens(line.as_slice(), 32);
        proof {
            assert(gv[i as int] == g@[i as int]@);
            assert(byte_views(ts@) == spec_tokens(gv[i as int], 32));
        }
        match parse_u64_all(&ts) {
            Some(vs) => {
                if vs.len() == 3 && vs[2] <= u64::MAX - vs[1] && vs[2] <= u64::MAX - vs[0] {
                    rs.push(AlmanacRange { dst: vs[0], src: vs[1], len: vs[2] });
                } else {
                    proof {
                        lemma_ranges_upto_none(gv, i + 1, gv.len() as int);
                    }
                    return None;
                }
            },
            None => {
                proof {
                    lemma_ranges_upto_none(gv, i + 1, gv.len() as int);
                }
                return None;
            },
        }
        i = i + 1;
    }
    // sort the ranges by source start
    let ghost rv = rs@;
    let mut pairs: Vec<(Vec<u64>, usize)> = Vec::new();
    let mut t: usize = 0;
    while t < rs.len()
        invariant
            0 <= t <= rs@.len(),
            rv == rs@,
            pairs@.len() == t,
            forall|u: int|
                0 <= u < t ==> #[trigger] pair_views(pairs@)[u] == (seq![rv[u].src], u as usize),
        decreases rs@.len() - t,
    {
        let mut key: Vec<u64> = Vec::new();
        key.push(rs[t].src);
        proof {
            assert(key@ =~= seq![rv[t as int].src]);
        }
        let ghost oldp = pair_views(pairs@);
        pairs.push((key, t));
        proof {
            assert(pair_views(pairs@) =~= oldp.push((key@, t as usize)));
        }
        t = t + 1;
    }
    proof {
        assert(pair_views(pairs@) =~= Seq::new(rv.len(), |u: int| (seq![rv[u].src], u as usize)));
    }
    let ghost keyed = Seq::new(rv.len(), |u: int| (seq![rv[u].src], u as usize));
    let sorted_pairs = sort_pairs(&pairs);
    proof {
        lemma_sort_len(keyed);
        assert(forall|u: int| 0 <= u < rv.len() ==> (#[trigger] keyed[u]).1 < rv.len());
        lemma_sort_payload_bound(keyed, rv.len() as int);
    }
    let mut out: Vec<AlmanacRange> = Vec::new();
    let mut j: usize = 0;
    while j < sorted_pairs.len()
        invariant
            0 <= j <= sorted_pairs@.len(),
            rv == rs@,
            pair_views(sorted_pairs@) == spec_sort(
                Seq::new(rv.len(), |u: int| (seq![rv[u].src], u as usize)),
            ),
            sorted_pairs@.len() == rv.len(),
            forall|u: int|
                0 <= u < rv.len() ==> (#[trigger] pair_views(sorted_pairs@)[u]).1 < rv.len(),
            out@.len() == j,
            forall|u: int|
                0 <= u < j ==> #[trigger] out@[u] == rv[pair_views(sorted_pairs@)[u].1 as int],
        decreases sorted_pairs@.len() - j,
    {
        let idx = sorted_pairs[j].1;
        proof {
            assert(pair_views(sorted_pairs@)[j as int].1 == idx);
        }
        out.push(rs[idx]);
        j = j + 1;
    }
    proof {
        assert(out@ =~= spec_map_block(gv).unwrap());
    }
    Some(out)
}

/// The whole almanac: the seed line block, then one block per map.
pub open spec fn spec_parse(s: Seq<u8>) -> Option<(Seq<u64>, Seq<Seq<AlmanacRange>>)> {
    let gs = spec_groups(spec_lines(s));
    if gs.len() < 1 || gs[0].len() != 1 {
        None
    } else {
        let ts = spec_tokens(gs[0][0], 32);
        if !(ts.len() >= 1 && ts[0] =~= seq![115u8, 101u8, 101u8, 100u8, 115u8, 58u8]) {
            None
        } else {
            match (spec_parse_u64_all(ts.skip(1)), spec_blocks_upto(gs, gs.len() as int)) {
                (Some(seeds), Some(ms)) => Some((seeds, ms)),
                _ => None,
            }
        }
    }
}

pub open spec fn spec_blocks_upto(gs: Seq<Seq<Seq<u8>>>, i: int) -> Option<Seq<Seq<AlmanacRange>>>
    decreases i,
{
    if i <= 1 {
        Some(Seq::empty())
    } else {
        match (spec_blocks_upto(gs, i - 1), spec_map_block(gs[i - 1])) {
            (Some(front), Some(b)) => Some(front.push(b)),
            _ => None,
        }
    }
}

proof fn lemma_blocks_upto_none(gs: Seq<Seq<Seq<u8>>>, i: int, n: int)
    requires
        1 <= i <= n,
        spec_blocks_upto(gs, i) is None,
    ensures
        spec_blocks_upto(gs, n) is None,
    decreases n - i,
{
    if i < n {
        lemma_blocks_upto_none(gs, i + 1, n);
    }
}

pub fn parse(input: &str) -> (r: Option<Almanac>)
    ensures
        match r {
            Some(a) => {
                &&& spec_parse(input.spec_bytes()) == Some((a.seeds@, maps_views(a.maps@)))
                &&& almanac_ok(a.seeds@, maps_views(a.maps@))
            },
            None => spec_parse(input.spec_bytes()) is None,
        },
{
    let bytes = input.as_bytes();
    let lines = split_lines(bytes);
    let groups = group_lines(&lines);
    let ghost gs = spec_groups(spec_lines(input.spec_bytes()));
    proof {
        assert(group_views(groups@) == gs);
        assert(gs.len() == groups@.len());
    }
    if groups.len() < 1 {
        return None;
    }
    proof {
        assert(byte_views(groups@[0]@) == gs[0]);
    }
    if groups[0].len() != 1 {
        return None;
    }
    proof {
        assert(groups@[0]@[0]@ == gs[0][0]);
    }
    let ts = tokens(groups[0][0].as_slice(), 32);
    proof {
        assert(byte_views(ts@) == spec_tokens(gs[0][0], 32));
    }
    if ts.len() == 0 {
        return None;
    }
    let w0 = &ts[0];
    let head_ok = w0.len() == 6 && w0[0] == 115 && w0[1] == 101 && w0[2] == 101 && w0[3] == 100
        && w0[4] == 115 && w0[5] == 58;
    proof {
        if head_ok {
            assert(w0@ =~= seq![115u8, 101u8, 101u8, 100u8, 115u8, 58u8]);
        } else {
            assert(!(w0@ =~= seq![115u8, 101u8, 101u8, 100u8, 115u8, 58u8]));
        }
    }
    if !head_ok {
        return None;
    }
    let mut rest: Vec<Vec<u8>> = Vec::new();
    let mut i: usize = 1;
    let ghost tv = byte_views(ts@);
    proof {
        assert(byte_views(rest@) =~= tv.skip(1).take(0));
    }
    while i < ts.len()
        invariant
            1 <= i <= ts@.len(),
            tv == byte_views(ts@),
            byte_views(rest@) == tv.skip(1).take(i - 1),
        decreases ts@.len() - i,
    {
        let ghost old_rv = byte_views(rest@);
        let part = ts[i].clone();
        rest.push(part);
        proof {
            assert(byte_views(rest@) =~= old_rv.push(tv[i as int]));
            assert(byte_views(rest@) =~= tv.skip(1).take(i as int));
        }
        i = i + 1;
    }
    proof {
        assert(tv.skip(1).take(tv.skip(1).len() as int) =~= tv.skip(1));
    }
    let seeds = match parse_u64_all(&rest) {
        Some(v) => v,
        None => {
            return None;
        },
    };
    let mut maps: Vec<Vec<AlmanacRange>> = Vec::new();
    let mut b: usize = 1;
    proof {
        assert(spec_parse(input.spec_bytes()) == (match spec_blocks_upto(gs, gs.len() as int) {
            Some(ms) => Some((seeds@, ms)),
            None => None,
        }));
    }
    while b < groups.len()
        invariant
            1 <= b <= groups@.len(),
            gs == group_views(groups@),
            spec_blocks_upto(gs, b as int) == Some(maps_views(maps@)),
            spec_parse(input.spec_bytes()) == (match spec_blocks_upto(gs, gs.len() as int) {
                Some(ms) => Some((seeds@, ms)),
                None => None,
            }),
            forall|j: int, k: int|
                0 <= j < maps@.len() && 0 <= k < maps@[j]@.len() ==> range_ok(
                    #[trigger] maps@[j]@[k],
                ),
        decreases groups@.len() - b,
    {
        proof {
            assert(byte_views(groups@[b as int]@) == gs[b as int]);
        }
        match parse_map_block(&groups[b]) {
            Some(block) => {
                proof {
                    lemma_block_ranges_ok(gs[b as int], block@);
                }
                let ghost old_mv = maps_views(maps@);
                maps.push(block);
                proof {
                    assert(maps_views(maps@) =~= old_mv.push(maps@.last()@));
                }
            },
            None => {
                proof {
                    lemma_blocks_upto_none(gs, b + 1, gs.len() as int);
                }
                return None;
            },
        }
        b = b + 1;
    }
    proof {
        assert(almanac_ok(seeds@, maps_views(maps@)));
    }
    Some(Almanac { seeds, maps })
}

/// Every range of a parsed block respects the 64-bit rim.
proof fn lemma_block_ranges_ok(g: Seq<Seq<u8>>, block: Seq<AlmanacRange>)
    requires
        spec_map_block(g) == Some(block),
    ensures
        forall|k: int| 0 <= k < block.len() ==> range_ok(#[trigger] block[k]),
{
    let rs = spec_ranges_upto(g, g.len() as int).unwrap();
    lemma_ranges_upto_ok(g, g.len() as int);
    let keyed = Seq::new(rs.len(), |t: int| (seq![rs[t].src], t as usize));
    lemma_sort_len(keyed);
    lemma_sort_payload_bound(keyed, rs.len() as int);
    assert(forall|k: int|
        0 <= k < block.len() ==> #[trigger] block[k] == rs[spec_sort(keyed)[k].1 as int]);
}

proof fn lemma_ranges_upto_ok(g: Seq<Seq<u8>>, i: int)
    requires
        spec_ranges_upto(g, i) is Some,
    ensures
        forall|k: int|
            0 <= k < spec_ranges_upto(g, i).unwrap().len() ==> range_ok(
                #[trigger] spec_ranges_upto(g, i).unwrap()[k],
            ),
    decreases i,
{
    if i > 1 {
        lemma_ranges_upto_ok(g, i - 1);
    }
}

} // verus!
