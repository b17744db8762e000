//! Calibration puzzle: each line hides digits, written as characters or as
//! words; the line's value is ten times the first digit plus the last one.
use vstd::prelude::*;

use crate::parsing::{byte_views, spec_lines, split_lines};
use vstd::string::StringSliceAdditionalSpecFns;

verus! {

/// The pattern indices that an overlapping search of the fixed digit
/// pattern list reports on a line, in match order.
pub uninterp spec fn digit_match_seq(line: Seq<u8>, patterns: Seq<Seq<u8>>) -> Seq<usize>;

/// Relies on aho_corasick::AhoCorasick: `new` builds a standard-semantics
/// automaton over the given patterns, and `find_overlapping_iter` reports
/// every occurrence of every pattern, in order, each as the index of the
/// pattern in the list. Building fails only when the patterns outgrow the
/// automaton's identifier space, so it cannot fail for a digit list of at
/// most eighteen patterns of at most five bytes each.
#[verifier::external_body]
fn find_matches(line: &Vec<u8>, patterns: &Vec<Vec<u8>>) -> (r: Option<Vec<usize>>)
    ensures
        match r {
            Some(v) => {
                &&& v@ == digit_match_seq(line@, byte_views(patterns@))
                &&& forall|i: int| 0 <= i < v@.len() ==> #[trigger] v@[i] < patterns@.len()
            },
            None => true,
        },
        (patterns@.len() <= 18 && (forall|i: int|
            0 <= i < patterns@.len() ==> (#[trigger] patterns@[i])@.len() <= 5)) ==> r is Some,
{
    match aho_corasick::AhoCorasick::new(patterns) {
        Ok(finder) => Some(
            finder.find_overlapping_iter(line.as_slice()).map(
                |m| m.pattern().as_usize(),
            ).collect(),
        ),
        Err(_) => None,
    }
}

/// The digit named by a pattern index: the nine digit characters come
/// first in the list, the nine digit words after them.
pub fn to_digit(pattern: usize) -> (d: i32)
    requires
        pattern < 18,
    ensures
        d == pattern % 9 + 1,
{
    (pattern % 9 + 1) as i32
}

/// Ten times the first reported digit plus the last one.
pub open spec fn line_value(ids: Seq<usize>) -> int {
    (ids[0] % 9 + 1) * 10 + (ids.last() % 9 + 1)
}

/// The value of one line's match list; `None` when no digit was found.
pub fn find_first_and_last(matches: &Vec<usize>) -> (r: Option<i32>)
    ensures
        matches@.len() == 0 ==> r is None,
        matches@.len() > 0 ==> r == Some(line_value(matches@) as i32),
        matches@.len() > 0 ==> 10 <= line_value(matches@) <= 99,
{
    if matches.len() == 0 {
        return None;
    }
    let first = matches[0];
    let last = matches[matches.len() - 1];
    Some(to_digit(first % 9) * 10 + to_digit(last % 9))
}

/// Sum of the line values of all match lists; `None` on a line without a
/// digit (the sum of values between 10 and 99 cannot leave 32 bits before
/// the list count does).
pub open spec fn spec_values_sum(idss: Seq<Seq<usize>>, i: int) -> Option<int>
    decreases i,
{
    if i <= 0 {
        Some(0)
    } else {
        match spec_values_sum(idss, i - 1) {
            Some(acc) => {
                if idss[i - 1].len() == 0 {
                    None
                } else {
                    Some(acc + line_value(idss[i - 1]))
                }
            },
            None => None,
        }
    }
}

pub open spec fn ids_views(v: Seq<Vec<usize>>) -> Seq<Seq<usize>> {
    Seq::new(v.len(), |i: int| v[i]@)
}

proof fn lemma_values_sum_none(idss: Seq<Seq<usize>>, i: int, n: int)
    requires
        0 <= i <= n,
        spec_values_sum(idss, i) is None,
    ensures
        spec_values_sum(idss, n) is None,
    decreases n - i,
{
    if i < n {
        lemma_values_sum_none(idss, i + 1, n);
    }
}

proof fn lemma_values_sum_le(idss: Seq<Seq<usize>>, i: int, n: int)
    requires
        0 <= i <= n,
        spec_values_sum(idss, n) is Some,
    ensures
        spec_values_sum(idss, i) is Some,
        spec_values_sum(idss, i).unwrap() <= spec_values_sum(idss, n).unwrap(),
    decreases n - i,
{
    if i < n {
        lemma_values_sum_le(idss, i + 1, n);
    }
}

/// The summed line values of a list of match lists.
pub fn line_values_sum(idss: &Vec<Vec<usize>>) -> (r: Option<i32>)
    ensures
        ({
            let sv = spec_values_sum(ids_views(idss@), idss@.len() as int);
            match r {
                Some(v) => sv == Some(v as int),
                None => sv is None || sv.unwrap() > i32::MAX,
            }
        }),
{
    let ghost iv = ids_views(idss@);
    let mut acc: i32 = 0;
    let mut i: usize = 0;
    while i < idss.len()
        invariant
            0 <= i <= idss@.len(),
            iv == ids_views(idss@),
            spec_values_sum(iv, i as int) == Some(acc as int),
            acc >= 0,
        decreases idss@.len() - i,
    {
        match find_first_and_last(&idss[i]) {
            Some(v) => {
                match acc.checked_add(v) {
                    Some(x) => {
                        acc = x;
                    },
                    None => {
                        proof {
                            if spec_values_sum(iv, iv.len() as int) is Some {
                                lemma_values_sum_le(iv, i + 1, iv.len() as int);
                            }
                        }
                        return None;
                    },
                }
            },
            None => {
                proof {
                    assert(iv[i as int].len() == 0);
                    lemma_values_sum_none(iv, i + 1, iv.len() as int);
                }
                return None;
            },
        }
        i = i + 1;
    }
    Some(acc)
}

fn mk1(a: u8) -> (r: Vec<u8>)
    ensures
        r@ =~= seq![a],
{
    let mut v: Vec<u8> = Vec::new();
    v.push(a);
    v
}

fn mk3(a: u8, b: u8, c: u8) -> (r: Vec<u8>)
    ensures
        r@ =~= seq![a, b, c],
{
    let mut v: Vec<u8> = Vec::new();
    v.push(a);
    v.push(b);
    v.push(c);
    v
}

fn mk4(a: u8, b: u8, c: u8, d: u8) -> (r: Vec<u8>)
    ensures
        r@ =~= seq![a, b, c, d],
{
    let mut v: Vec<u8> = Vec::new();
    v.push(a);
    v.push(b);
    v.push(c);
    v.push(d);
    v
}

fn mk5(a: u8, b: u8, c: u8, d: u8, e: u8) -> (r: Vec<u8>)
    ensures
        r@ =~= seq![a, b, c, d, e],
{
    let mut v: Vec<u8> = Vec::new();
    v.push(a);
    v.push(b);
    v.push(c);
    v.push(d);
    v.push(e);
    v
}

/// The digit characters one to nine, and with `words` also the digit
/// words one to nine, in that order.
pub open spec fn spec_patterns(words: bool) -> Seq<Seq<u8>> {
    let digits = seq![
        seq![49u8],
        seq![50u8],
        seq![51u8],
        seq![52u8],
        seq![53u8],
        seq![54u8],
        seq![55u8],
        seq![56u8],
        seq![57u8],
    ];
    if words {
        digits + seq![
            seq![111u8, 110u8, 101u8],
            seq![116u8, 119u8, 111u8],
            seq![116u8, 104u8, 114u8, 101u8, 101u8],
            seq![102u8, 111u8, 117u8, 114u8],
            seq![102u8, 105u8, 118u8, 101u8],
            seq![115u8, 105u8, 120u8],
            seq![115u8, 101u8, 118u8, 101u8, 110u8],
            seq![101u8, 105u8, 103u8, 104u8, 116u8],
            seq![110u8, 105u8, 110u8, 101u8],
        ]
    } else {
        digits
    }
}

fn build_patterns(words: bool) -> (r: Vec<Vec<u8>>)
    ensures
        byte_views(r@) == spec_patterns(words),
        r@.len() == (if words {
            18int
        } else {
            9int
        }),
        forall|i: int| 0 <= i < r@.len() ==> (#[trigger] r@[i])@.len() <= 5,
{
    let mut pats: Vec<Vec<u8>> = Vec::new();
    pats.push(mk1(49));
    pats.push(mk1(50));
    pats.push(mk1(51));
    pats.push(mk1(52));
    pats.push(mk1(53));
    pats.push(mk1(54));
    pats.push(mk1(55));
    pats.push(mk1(56));
    pats.push(mk1(57));
    if words {
        pats.push(mk3(111, 110, 101));
        pats.push(mk3(116, 119, 111));
        pats.push(mk5(116, 104, 114, 101, 101));
        pats.push(mk4(102, 111, 117, 114));
        pats.push(mk4(102, 105, 118, 101));
        pats.push(mk3(115, 105, 120));
        pats.push(mk5(115, 101, 118, 101, 110));
        pats.push(mk5(101, 105, 103, 104, 116));
        pats.push(mk4(110, 105, 110, 101));
    }
    proof {
        assert(byte_views(pats@) =~~= spec_patterns(words));
    }
    pats
}

/// The match lists of all lines under the chosen pattern list.
pub open spec fn spec_all_matches(ls: Seq<Seq<u8>>, words: bool) -> Seq<Seq<usize>> {
    Seq::new(ls.len(), |i: int| digit_match_seq(ls[i], spec_patterns(words)))
}

fn solve(input: &str, words: bool) -> (r: Option<i32>)
    ensures
        ({
            let ls = spec_lines(input.spec_bytes());
            let sv = spec_values_sum(spec_all_matches(ls, words), ls.len() as int);
            match r {
                Some(v) => sv == Some(v as int),
                None => sv is None || sv.unwrap() > i32::MAX,
            }
        }),
{
    let bytes = input.as_bytes();
    let lines = split_lines(bytes);
    let ghost lv = spec_lines(input.spec_bytes());
    let pats = build_patterns(words);
    let mut idss: Vec<Vec<usize>> = Vec::new();
    let mut i: usize = 0;
    while i < lines.len()
        invariant
            0 <= i <= lines@.len(),
            lv == spec_lines(input.spec_bytes()),
            byte_views(lines@) == lv,
            byte_views(pats@) == spec_patterns(words),
            pats@.len() <= 18,
            forall|t: int| 0 <= t < pats@.len() ==> (#[trigger] pats@[t])@.len() <= 5,
            idss@.len() == i,
            forall|j: int|
                0 <= j < i ==> #[trigger] idss@[j]@ == digit_match_seq(
                    lv[j],
                    spec_patterns(words),
                ),
        decreases lines@.len() - i,
    {
        match find_matches(&lines[i], &pats) {
            Some(ids) => {
                proof {
                    assert(lines@[i as int]@ == lv[i as int]);
                }
                idss.push(ids);
            },
            None => {
                // the automaton always builds for the fixed digit list
                proof {
                    assert(false);
                }
                return None;
            },
        }
        i = i + 1;
    }
    proof {
        assert(ids_views(idss@) =~= spec_all_matches(lv, words));
    }
    line_values_sum(&idss)
}

/// Sum of line values reading only digit characters.
pub fn part1(input: &str) -> (r: Option<i32>)
    ensures
        ({
            let ls = spec_lines(input.spec_bytes());
            let sv = spec_values_sum(spec_all_matches(ls, false), ls.len() as int);
            match r {
                Some(v) => sv == Some(v as int),
                None => sv is None || sv.unwrap() > i32::MAX,
            }
        }),
{
    solve(input, false)
}

/// Sum of line values reading digit characters and digit words.
pub fn part2(input: &str) -> (r: Option<i32>)
    ensures
        ({
            let ls = spec_lines(input.spec_bytes());
            let sv = spec_values_sum(spec_all_matches(ls, true), ls.len() as int);
            match r {
                Some(v) => sv == Some(v as int),
                None => sv is None || sv.unwrap() > i32::MAX,
            }
        }),
{
    solve(input, true)
}

} // verus!
