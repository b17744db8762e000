//! Boat-race puzzle: holding the button for `x` time units travels
//! `x * (time - x)`; count the hold times that beat the record distance.
use vstd::prelude::*;

use crate::parsing::{
    byte_views, spec_lines, split_lines, spec_tokens, tokens, spec_parse_u64_all, parse_u64_all,
};
use vstd::string::StringSliceAdditionalSpecFns;

verus! {

#[derive(Debug, PartialEq, Eq, Structural, Clone, Copy)]
pub struct RaceInfo {
    pub time: i64,
    pub distance: i64,
}

/// How many hold times from `x` up to the race time beat the record.
pub open spec fn count_ways_from(t: int, d: int, x: int) -> int
    decreases t - x + 1,
{
    if x > t || x < 0 {
        0
    } else {
        (if x * (t - x) > d {
            1int
        } else {
            0int
        }) + count_ways_from(t, d, x + 1)
    }
}

pub open spec fn spec_ways(t: int, d: int) -> int {
    count_ways_from(t, d, 0)
}

proof fn lemma_ways_bound(t: int, d: int, x: int)
    requires
        0 <= x,
    ensures
        0 <= count_ways_from(t, d, x) <= (if t - x + 1 >= 0 {
            t - x + 1
        } else {
            0
        }),
    decreases t - x + 1,
{
    if !(x > t || x < 0) {
        lemma_ways_bound(t, d, x + 1);
    }
}

/// The number of winning hold times of one race.
pub fn ways(time: i64, distance: i64) -> (r: i64)
    requires
        0 <= time < i64::MAX,
        distance >= 0,
    ensures
        r == spec_ways(time as int, distance as int),
        0 <= r <= time + 1,
{
    let ghost t = time as int;
    let ghost d = distance as int;
    let mut count: i64 = 0;
    let mut x: i64 = 0;
    proof {
        lemma_ways_bound(t, d, 0);
    }
    while x <= time
        invariant
            0 <= x <= time + 1,
            0 <= time < i64::MAX,
            distance >= 0,
            t == time as int,
            d == distance as int,
            count + count_ways_from(t, d, x as int) == spec_ways(t, d),
            0 <= count <= x,
            spec_ways(t, d) <= time + 1,
        decreases time - x + 1,
    {
        proof {
            lemma_ways_bound(t, d, x + 1);
            assert(0 <= (x as int) * ((time - x) as int)
                <= 0x3fff_ffff_ffff_ffff_ffff_ffff_ffff_ffffint) by (nonlinear_arith)
                requires
                    0 <= x <= time,
                    time < 0x8000_0000_0000_0000,
            ;
        }
        let travelled: u128 = (x as u128) * ((time - x) as u128);
        if travelled > distance as u128 {
            count = count + 1;
        }
        x = x + 1;
    }
    count
}

/// The races: times on the first line, record distances on the second.
pub open spec fn spec_parse(s: Seq<u8>) -> Option<Seq<RaceInfo>> {
    let ls = spec_lines(s);
    if ls.len() < 2 {
        None
    } else {
        match (spec_num_line(ls[0], seq![84u8, 105u8, 109u8, 101u8, 58u8]), spec_num_line(
            ls[1],
            seq![68u8, 105u8, 115u8, 116u8, 97u8, 110u8, 99u8, 101u8, 58u8],
        )) {
            (Some(ts), Some(ds)) => {
                let n = if ts.len() <= ds.len() {
                    ts.len() as int
                } else {
                    ds.len() as int
                };
                Some(Seq::new(n as nat, |i: int| RaceInfo { time: ts[i], distance: ds[i] }))
            },
            _ => None,
        }
    }
}

/// A header word followed by numbers that fit 64-bit signed values.
pub open spec fn spec_num_line(line: Seq<u8>, header: Seq<u8>) -> Option<Seq<i64>> {
    let ts = spec_tokens(line, 32);
    if !(ts.len() >= 1 && ts[0] =~= header) {
        None
    } else {
        match crate::parsing::spec_parse_u64_all(ts.skip(1)) {
            Some(vs) => {
                if forall|i: int| 0 <= i < vs.len() ==> #[trigger] vs[i] <= i64::MAX {
                    Some(Seq::new(vs.len(), |i: int| vs[i] as i64))
                } else {
                    None
                }
            },
            None => None,
        }
    }
}

fn num_line(line: &Vec<u8>, header: &Vec<u8>) -> (r: Option<Vec<i64>>)
    ensures
        match r {
            Some(v) => {
                &&& spec_num_line(line@, header@) == Some(v@)
                &&& forall|i: int| 0 <= i < v@.len() ==> #[trigger] v@[i] >= 0
            },
            None => spec_num_line(line@, header@) is None,
        },
{
    let ts = tokens(line.as_slice(), 32);
    let ghost tv = byte_views(ts@);
    if ts.len() == 0 {
        return None;
    }
    if !crate::parsing::bytes_eq(&ts[0], header) {
        proof {
            assert(tv[0] == ts@[0]@);
            assert(!(tv[0] =~= header@));
        }
        return None;
    }
    proof {
        assert(tv[0] =~= header@);
    }
    let mut rest: Vec<Vec<u8>> = Vec::new();
    let mut i: usize = 1;
    proof {
        assert(byte_views(rest@) =~= tv.skip(1).take(0));
    }
    while i < ts.len()
        invariant
            1 <= i <= ts@.len(),
            tv == byte_views(ts@),
            byte_views(rest@) == tv.skip(1).take(i - 1),
        decreases ts@.len() - i,
    {
        let ghost old_rv = byte_views(rest@);
        let part = ts[i].clone();
        rest.push(part);
        proof {
            assert(byte_views(rest@) =~= old_rv.push(tv[i as int]));
            assert(byte_views(rest@) =~= tv.skip(1).take(i as int));
        }
        i = i + 1;
    }
    proof {
        assert(tv.skip(1).take(tv.skip(1).len() as int) =~= tv.skip(1));
    }
    match parse_u64_all(&rest) {
        Some(vs) => {
            let mut out: Vec<i64> = Vec::new();
            let mut j: usize = 0;
            while j < vs.len()
                invariant
                    0 <= j <= vs@.len(),
                    Some(vs@) == spec_parse_u64_all(tv.skip(1)),
                    tv == spec_tokens(line@, 32),
                    tv[0] =~= header@,
                    tv.len() >= 1,
                    out@.len() == j,
                    forall|u: int| 0 <= u < j ==> #[trigger] vs@[u] <= i64::MAX,
                    forall|u: int| 0 <= u < j ==> #[trigger] out@[u] == vs@[u] as i64,
                    forall|u: int| 0 <= u < j ==> #[trigger] out@[u] >= 0,
                decreases vs@.len() - j,
            {
                let v = vs[j];
                if v > i64::MAX as u64 {
                    proof {
                        assert(vs@[j as int] > i64::MAX);
                    }
                    return None;
                }
                out.push(v as i64);
                j = j + 1;
            }
            proof {
                assert(out@ =~= Seq::new(vs@.len(), |u: int| vs@[u] as i64));
            }
            Some(out)
        },
        None => None,
    }
}

pub fn parse(input: &str) -> (r: Option<Vec<RaceInfo>>)
    ensures
        match r {
            Some(v) => {
                &&& spec_parse(input.spec_bytes()) == Some(v@)
                &&& forall|i: int|
                    0 <= i < v@.len() ==> (#[trigger] v@[i]).time >= 0 && v@[i].distance >= 0
            },
            None => spec_parse(input.spec_bytes()) is None,
        },
{
    let bytes = input.as_bytes();
    let lines = split_lines(bytes);
    let ghost lv = spec_lines(input.spec_bytes());
    proof {
        assert(lv.len() == lines@.len());
    }
    if lines.len() < 2 {
        return None;
    }
    proof {
        assert(lv[0] == lines@[0]@);
        assert(lv[1] == lines@[1]@);
    }
    let mut theader: Vec<u8> = Vec::new();
    theader.push(84);
    theader.push(105);
    theader.push(109);
    theader.push(101);
    theader.push(58);
    proof {
        assert(theader@ =~= seq![84u8, 105u8, 109u8, 101u8, 58u8]);
    }
    let mut dheader: Vec<u8> = Vec::new();
    dheader.push(68);
    dheader.push(105);
    dheader.push(115);
    dheader.push(116);
    dheader.push(97);
    dheader.push(110);
    dheader.push(99);
    dheader.push(101);
    dheader.push(58);
    proof {
        assert(dheader@ =~= seq![68u8, 105u8, 115u8, 116u8, 97u8, 110u8, 99u8, 101u8, 58u8]);
    }
    let ts = match num_line(&lines[0], &theader) {
        Some(v) => v,
        None => {
            return None;
        },
    };
    let ds = match num_line(&lines[1], &dheader) {
        Some(v) => v,
        None => {
            return None;
        },
    };
    let n = if ts.len() <= ds.len() {
        ts.len()
    } else {
        ds.len()
    };
    let mut out: Vec<RaceInfo> = Vec::new();
    let mut i: usize = 0;
    while i < n
        invariant
            0 <= i <= n,
            n <= ts@.len(),
            n <= ds@.len(),
            out@.len() == i,
            forall|u: int|
                0 <= u < i ==> #[trigger] out@[u] == (RaceInfo {
                    time: ts@[u],
                    distance: ds@[u],
                }),
        decreases n - i,
    {
        out.push(RaceInfo { time: ts[i], distance: ds[i] });
        i = i + 1;
    }
    proof {
        let sp = spec_parse(input.spec_bytes());
        assert(sp is Some);
        assert(out@ =~= sp.unwrap());
    }
    Some(out)
}

/// Product of the winning-way counts of the first `i` races.
pub open spec fn spec_prod(rs: Seq<RaceInfo>, i: int) -> int
    decreases i,
{
    if i <= 0 {
        1
    } else {
        spec_prod(rs, i - 1) * spec_ways(rs[i - 1].time as int, rs[i - 1].distance as int)
    }
}

pub fn part1(input: &Vec<RaceInfo>) -> (r: Option<i64>)
    requires
        forall|i: int|
            0 <= i < input@.len() ==> 0 <= (#[trigger] input@[i]).time < i64::MAX
                && input@[i].distance >= 0,
    ensures
        match r {
            Some(v) => {
                &&& v == spec_prod(input@, input@.len() as int)
                &&& forall|k: int|
                    0 <= k <= input@.len() ==> #[trigger] spec_prod(input@, k) <= i64::MAX
            },
            None => exists|k: int|
                0 <= k <= input@.len() && #[trigger] spec_prod(input@, k) > i64::MAX,
        },
{
    let mut acc: i64 = 1;
    let mut i: usize = 0;
    while i < input.len()
        invariant
            0 <= i <= input@.len(),
            forall|t: int|
                0 <= t < input@.len() ==> 0 <= (#[trigger] input@[t]).time < i64::MAX
                    && input@[t].distance >= 0,
            acc == spec_prod(input@, i as int),
            acc >= 0,
            forall|k: int| 0 <= k <= i ==> #[trigger] spec_prod(input@, k) <= i64::MAX,
        decreases input@.len() - i,
    {
        let race = input[i];
        let w = ways(race.time, race.distance);
        match acc.checked_mul(w) {
            Some(x) => {
                proof {
                    assert(x >= 0) by (nonlinear_arith)
                        requires
                            x == acc * w,
                            acc >= 0,
                            w >= 0,
                    ;
                }
                acc = x;
            },
            None => {
                proof {
                    assert(spec_prod(input@, i + 1) > i64::MAX || spec_prod(input@, i + 1)
                        < -i64::MAX) by (nonlinear_arith)
                        requires
                            spec_prod(input@, i + 1) == acc * w,
                            acc * w > i64::MAX || acc * w < i64::MIN,
                    ;
                    assert(acc * w >= 0) by (nonlinear_arith)
                        requires
                            acc >= 0,
                            w >= 0,
                    ;
                }
                return None;
            },
        }
        i = i + 1;
    }
    Some(acc)
}

/// The one big race read by ignoring the spaces between the digits.
pub open spec fn spec_kerned_num(line: Seq<u8>, header: Seq<u8>) -> Option<i64> {
    if !(line.len() >= header.len() && line.take(header.len() as int) =~= header) {
        None
    } else {
        let digits = line.skip(header.len() as int).filter(|b: u8| b != 32);
        match crate::parsing::spec_parse_u64(digits) {
            Some(v) => if v < i64::MAX {
                Some(v as i64)
            } else {
                None
            },
            None => None,
        }
    }
}

fn kerned_num(line: &Vec<u8>, header: &Vec<u8>) -> (r: Option<i64>)
    ensures
        r == spec_kerned_num(line@, header@),
        r matches Some(v) ==> 0 <= v < i64::MAX,
{
    if line.len() < header.len() {
        return None;
    }
    let mut i: usize = 0;
    while i < header.len()
        invariant
            0 <= i <= header@.len() <= line@.len(),
            forall|j: int| 0 <= j < i ==> line@[j] == header@[j],
        decreases header@.len() - i,
    {
        if line[i] != header[i] {
            proof {
                assert(!(line@.take(header@.len() as int) =~= header@));
            }
            return None;
        }
        i = i + 1;
    }
    proof {
        assert(line@.take(header@.len() as int) =~= header@);
    }
    let mut digits: Vec<u8> = Vec::new();
    let mut j: usize = header.len();
    let ghost rest = line@.skip(header@.len() as int);
    proof {
        reveal(Seq::filter);
        assert(rest.take(0) =~= Seq::<u8>::empty());
        assert(digits@ =~= rest.take(0).filter(|b: u8| b != 32));
    }
    while j < line.len()
        invariant
            header@.len() <= j <= line@.len(),
            rest == line@.skip(header@.len() as int),
            digits@ == rest.take(j - header@.len()).filter(|b: u8| b != 32),
        decreases line@.len() - j,
    {
        proof {
            reveal(Seq::filter);
            assert(rest.take(j - header@.len() + 1).drop_last() =~= rest.take(
            j - header@.len()));
            assert(rest.take(j - header@.len() + 1).last() == line@[j as int]);
        }
        if line[j] != 32 {
            digits.push(line[j]);
        }
        j = j + 1;
    }
    proof {
        assert(rest.take(rest.len() as int) =~= rest);
    }
    match crate::parsing::parse_u64(digits.as_slice()) {
        Some(v) => {
            if v < i64::MAX as u64 {
                Some(v as i64)
            } else {
                None
            }
        },
        None => None,
    }
}

/// The single-race reading of the whole input.
pub open spec fn spec_part2(s: Seq<u8>) -> Option<(i64, i64)> {
    let ls = spec_lines(s);
    if ls.len() < 2 {
        None
    } else {
        match (spec_kerned_num(ls[0], seq![84u8, 105u8, 109u8, 101u8, 58u8]), spec_kerned_num(
            ls[1],
            seq![68u8, 105u8, 115u8, 116u8, 97u8, 110u8, 99u8, 101u8, 58u8],
        )) {
            (Some(t), Some(d)) => Some((t, d)),
            _ => None,
        }
    }
}

pub fn part2(input: &str) -> (r: Option<i64>)
    ensures
        match r {
            Some(v) => {
                &&& spec_part2(input.spec_bytes()) is Some
                &&& {
                    let (t, d) = spec_part2(input.spec_bytes()).unwrap();
                    v == spec_ways(t as int, d as int)
                }
            },
            None => spec_part2(input.spec_bytes()) is None,
        },
{
    let bytes = input.as_bytes();
    let lines = split_lines(bytes);
    let ghost lv = spec_lines(input.spec_bytes());
    proof {
        assert(lv.len() == lines@.len());
    }
    if lines.len() < 2 {
        return None;
    }
    proof {
        assert(lv[0] == lines@[0]@);
        assert(lv[1] == lines@[1]@);
    }
    let mut theader: Vec<u8> = Vec::new();
    theader.push(84);
    theader.push(105);
    theader.push(109);
    theader.push(101);
    theader.push(58);
    proof {
        assert(theader@ =~= seq![84u8, 105u8, 109u8, 101u8, 58u8]);
    }
    let mut dheader: Vec<u8> = Vec::new();
    dheader.push(68);
    dheader.push(105);
    dheader.push(115);
    dheader.push(116);
    dheader.push(97);
    dheader.push(110);
    dheader.push(99);
    dheader.push(101);
    dheader.push(58);
    proof {
        assert(dheader@ =~= seq![68u8, 105u8, 115u8, 116u8, 97u8, 110u8, 99u8, 101u8, 58u8]);
    }
    let t = match kerned_num(&lines[0], &theader) {
        Some(v) => v,
        None => {
            return None;
        },
    };
    let d = match kerned_num(&lines[1], &dheader) {
        Some(v) => v,
        None => {
            return None;
        },
    };
    Some(ways(t, d))
}

} // verus!
