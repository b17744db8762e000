//! Scratchcard puzzle: each card lists winning numbers and numbers you
//! have; matches double a card's score, and copies of later cards cascade.
use vstd::prelude::*;

use crate::parsing::{
    byte_views, spec_lines, split_lines, spec_tokens, tokens, spec_split, split_on,
    spec_parse_u64_all, parse_u64_all, first_index_of, lemma_first_index_of_exact,
    lemma_first_index_of_none, copy_range,
};
use vstd::pervasive::VecAdditionalExecFns;
use vstd::string::StringSliceAdditionalSpecFns;

verus! {

pub struct Card {
    pub winning: Vec<i32>,
    pub have: Vec<i32>,
}

impl PartialEq for Card {
    fn eq(&self, other: &Card) -> (r: bool) {
        crate::day4::vecs_i32_eq(&self.winning, &other.winning) && crate::day4::vecs_i32_eq(
            &self.have,
            &other.have,
        )
    }
}

impl vstd::std_specs::cmp::PartialEqSpecImpl for Card {
    open spec fn obeys_eq_spec() -> bool {
        true
    }

    open spec fn eq_spec(&self, other: &Card) -> bool {
        self.winning@ == other.winning@ && self.have@ == other.have@
    }
}

pub fn vecs_i32_eq(a: &Vec<i32>, b: &Vec<i32>) -> (r: bool)
    ensures
        r == (a@ == b@),
{
    if a.len() != b.len() {
        return false;
    }
    let mut i: usize = 0;
    while i < a.len()
        invariant
            0 <= i <= a@.len(),
            a@.len() == b@.len(),
            forall|j: int| 0 <= j < i ==> a@[j] == b@[j],
        decreases a@.len() - i,
    {
        if a[i] != b[i] {
            return false;
        }
        i = i + 1;
    }
    proof {
        assert(a@ =~= b@);
    }
    true
}

/// Whether `v` occurs among the first `n` entries.
pub open spec fn seq_has(s: Seq<i32>, n: int, v: i32) -> bool {
    exists|u: int| 0 <= u < n && s[u] == v
}

fn contains_i32(s: &Vec<i32>, n: usize, x: i32) -> (r: bool)
    requires
        n <= s@.len(),
    ensures
        r == seq_has(s@, n as int, x),
{
    let mut i: usize = 0;
    while i < n
        invariant
            0 <= i <= n <= s@.len(),
            forall|j: int| 0 <= j < i ==> s@[j] != x,
        decreases n - i,
    {
        if s[i] == x {
            return true;
        }
        i = i + 1;
    }
    false
}

/// How many distinct winning numbers appear among the numbers you have,
/// counting each winning value once.
pub open spec fn matching_count(w: Seq<i32>, h: Seq<i32>, i: int) -> int
    decreases i,
{
    if i <= 0 {
        0
    } else {
        matching_count(w, h, i - 1) + (if seq_has(h, h.len() as int, w[i - 1]) && !seq_has(
            w,
            i - 1,
            w[i - 1],
        ) {
            1int
        } else {
            0int
        })
    }
}

impl Card {
    pub fn matching(&self) -> (r: usize)
        ensures
            r == matching_count(self.winning@, self.have@, self.winning@.len() as int),
            r <= self.winning@.len(),
    {
        let mut count: usize = 0;
        let mut i: usize = 0;
        while i < self.winning.len()
            invariant
                0 <= i <= self.winning@.len(),
                count == matching_count(self.winning@, self.have@, i as int),
                count <= i,
            decreases self.winning@.len() - i,
        {
            let v = self.winning[i];
            if contains_i32(&self.have, self.have.len(), v) && !contains_i32(
                &self.winning,
                i,
                v,
            ) {
                count = count + 1;
            }
            i = i + 1;
        }
        count
    }
}

/// The numbers in one list segment, each fitting a 32-bit value.
pub open spec fn spec_num_list(s: Seq<u8>) -> Option<Seq<i32>> {
    match spec_parse_u64_all(spec_tokens(s, 32)) {
        Some(vs) => {
            if forall|i: int| 0 <= i < vs.len() ==> #[trigger] vs[i] <= i32::MAX {
                Some(Seq::new(vs.len(), |i: int| vs[i] as i32))
            } else {
                None
            }
        },
        None => None,
    }
}

fn num_list(s: &Vec<u8>) -> (r: Option<Vec<i32>>)
    ensures
        match r {
            Some(v) => Some(v@) == spec_num_list(s@),
            None => spec_num_list(s@) is None,
        },
{
    let parts = tokens(s.as_slice(), 32);
    proof {
        assert(byte_views(parts@) == spec_tokens(s@, 32));
    }
    let r = parse_u64_all(&parts);
    match r {
        Some(vs) => {
            let mut out: Vec<i32> = Vec::new();
            let mut i: usize = 0;
            while i < vs.len()
                invariant
                    0 <= i <= vs@.len(),
                    Some(vs@) == spec_parse_u64_all(spec_tokens(s@, 32)),
                    out@.len() == i,
                    forall|j: int| 0 <= j < i ==> #[trigger] vs@[j] <= i32::MAX,
                    forall|j: int| 0 <= j < i ==> #[trigger] out@[j] == vs@[j] as i32,
                decreases vs@.len() - i,
            {
                let v = vs[i];
                if v > i32::MAX as u64 {
                    proof {
                        assert(spec_parse_u64_all(spec_tokens(s@, 32)) == Some(vs@));
                        assert(vs@[i as int] > i32::MAX);
                    }
                    return None;
                }
                out.push(v as i32);
                i = i + 1;
            }
            proof {
                assert(out@ =~= Seq::new(vs@.len(), |i: int| vs@[i] as i32));
            }
            Some(out)
        },
        None => None,
    }
}

/// One card line: the word `Card` and an id before the colon, then the
/// winning numbers, a bar, and the numbers you have.
pub open spec fn spec_parse_card(line: Seq<u8>) -> Option<(Seq<i32>, Seq<i32>)> {
    let k = first_index_of(line, 58);
    if !(0 <= k < line.len()) {
        None
    } else {
        let head = spec_tokens(line.take(k), 32);
        if !(head.len() == 2 && head[0] =~= seq![67u8, 97u8, 114u8, 100u8]
            && crate::parsing::spec_parse_u64(head[1]) is Some) {
            None
        } else {
            let rest = line.skip(k + 1);
            let sides = spec_split(rest, 124);
            if sides.len() != 2 {
                None
            } else {
                match (spec_num_list(sides[0]), spec_num_list(sides[1])) {
                    (Some(w), Some(h)) => Some((w, h)),
                    _ => None,
                }
            }
        }
    }
}

fn parse_card(line: &Vec<u8>) -> (r: Option<Card>)
    ensures
        match r {
            Some(c) => spec_parse_card(line@) == Some((c.winning@, c.have@)),
            None => spec_parse_card(line@) is None,
        },
{
    // find the colon
    let mut k: usize = 0;
    while k < line.len() && line[k] != 58
        invariant
            0 <= k <= line@.len(),
            forall|j: int| 0 <= j < k ==> line@[j] != 58,
        decreases line@.len() - k,
    {
        k = k + 1;
    }
    proof {
        if k < line@.len() {
            lemma_first_index_of_exact(line@, 58, k as int);
        } else {
            lemma_first_index_of_none(line@, 58);
        }
    }
    if k >= line.len() {
        return None;
    }
    let headseg = copy_range(line, 0, k);
    proof {
        assert(headseg@ =~= line@.take(k as int));
    }
    let head = tokens(headseg.as_slice(), 32);
    if head.len() != 2 {
        return None;
    }
    let w0 = &head[0];
    if !(w0.len() == 4 && w0[0] == 67 && w0[1] == 97 && w0[2] == 114 && w0[3] == 100) {
        proof {
            let sp = spec_tokens(line@.take(k as int), 32);
            assert(head@[0]@ == sp[0]);
            if w0@.len() == 4 {
                assert(!(w0@ =~= seq![67u8, 97u8, 114u8, 100u8]) ==> !(w0@[0] == 67 && w0@[1]
                    == 97 && w0@[2] == 114 && w0@[3] == 100));
            }
        }
        return None;
    }
    proof {
        assert(head@[0]@ =~= seq![67u8, 97u8, 114u8, 100u8]);
    }
    match crate::parsing::parse_u64(head[1].as_slice()) {
        Some(_) => {},
        None => {
            return None;
        },
    }
    let rest = copy_range(line, k + 1, line.len());
    proof {
        assert(rest@ =~= line@.skip(k + 1));
    }
    let sides = split_on(rest.as_slice(), 124);
    if sides.len() != 2 {
        return None;
    }
    let w = match num_list(&sides[0]) {
        Some(v) => v,
        None => {
            return None;
        },
    };
    let h = match num_list(&sides[1]) {
        Some(v) => v,
        None => {
            return None;
        },
    };
    Some(Card { winning: w, have: h })
}

/// Every line read as a card.
pub open spec fn spec_parse_cards(ls: Seq<Seq<u8>>) -> Option<Seq<(Seq<i32>, Seq<i32>)>>
    decreases ls.len(),
{
    if ls.len() == 0 {
        Some(Seq::empty())
    } else {
        match spec_parse_cards(ls.drop_last()) {
            Some(front) => match spec_parse_card(ls.last()) {
                Some(c) => Some(front.push(c)),
                None => None,
            },
            None => None,
        }
    }
}

pub open spec fn cards_views(s: Seq<Card>) -> Seq<(Seq<i32>, Seq<i32>)> {
    Seq::new(s.len(), |i: int| (s[i].winning@, s[i].have@))
}

proof fn lemma_parse_cards_prefix_none(ls: Seq<Seq<u8>>, i: int)
    requires
        0 <= i <= ls.len(),
        spec_parse_cards(ls.take(i)) is None,
    ensures
        spec_parse_cards(ls) is None,
    decreases ls.len() - i,
{
    if i < ls.len() {
        assert(ls.take(i + 1).drop_last() =~= ls.take(i));
        lemma_parse_cards_prefix_none(ls, i + 1);
    } else {
        assert(ls.take(i) =~= ls);
    }
}

pub fn parse(input: &str) -> (r: Option<Vec<Card>>)
    ensures
        match r {
            Some(cards) => Some(cards_views(cards@)) == spec_parse_cards(
                spec_lines(input.spec_bytes()),
            ),
            None => spec_parse_cards(spec_lines(input.spec_bytes())) is None,
        },
{
    let bytes = input.as_bytes();
    let lines = split_lines(bytes);
    let ghost lv = spec_lines(input.spec_bytes());
    let mut cards: Vec<Card> = Vec::new();
    let mut i: usize = 0;
    proof {
        assert(lv.take(0) =~= Seq::<Seq<u8>>::empty());
        assert(cards_views(cards@) =~= Seq::<(Seq<i32>, Seq<i32>)>::empty());
    }
    while i < lines.len()
        invariant
            0 <= i <= lines@.len(),
            lv == spec_lines(input.spec_bytes()),
            byte_views(lines@) == lv,
            Some(cards_views(cards@)) == spec_parse_cards(lv.take(i as int)),
        decreases lines@.len() - i,
    {
        proof {
            assert(lv.take(i + 1).drop_last() =~= lv.take(i as int));
            assert(lv.take(i + 1).last() == lines@[i as int]@);
        }
        match parse_card(&lines[i]) {
            Some(c) => {
                let ghost old_cv = cards_views(cards@);
                cards.push(c);
                proof {
                    assert(cards_views(cards@) =~= old_cv.push(
                        (cards@.last().winning@, cards@.last().have@),
                    ));
                }
            },
            None => {
                proof {
                    lemma_parse_cards_prefix_none(lv, i + 1);
                }
                return None;
            },
        }
        i = i + 1;
    }
    proof {
        assert(lv.take(lv.len() as int) =~= lv);
    }
    Some(cards)
}

/// 2 to the power `k`.
pub open spec fn pow2(k: int) -> int
    decreases k,
{
    if k <= 0 {
        1
    } else {
        2 * pow2(k - 1)
    }
}

/// A card's score: zero without matches, else doubling per extra match.
pub open spec fn card_score(m: int) -> int {
    if m <= 0 {
        0
    } else {
        pow2(m - 1)
    }
}

pub open spec fn spec_match_of(c: (Seq<i32>, Seq<i32>)) -> int {
    matching_count(c.0, c.1, c.0.len() as int)
}

/// Total score of the first `i` cards.
pub open spec fn spec_part1_sum(cs: Seq<(Seq<i32>, Seq<i32>)>, i: int) -> int
    decreases i,
{
    if i <= 0 {
        0
    } else {
        spec_part1_sum(cs, i - 1) + card_score(spec_match_of(cs[i - 1]))
    }
}

proof fn lemma_pow2_pos(k: int)
    ensures
        pow2(k) >= 1,
    decreases k,
{
    if k > 0 {
        lemma_pow2_pos(k - 1);
    }
}

proof fn lemma_part1_sum_le(cs: Seq<(Seq<i32>, Seq<i32>)>, i: int, j: int)
    requires
        0 <= i <= j,
    ensures
        spec_part1_sum(cs, i) <= spec_part1_sum(cs, j),
    decreases j - i,
{
    if i < j {
        lemma_part1_sum_le(cs, i, j - 1);
        let m = spec_match_of(cs[j - 1]);
        if m > 0 {
            lemma_pow2_pos(m - 1);
        }
    }
}

/// Sum of card scores; `None` past the 32-bit range the scores live in.
pub fn part1(input: &Vec<Card>) -> (r: Option<u32>)
    ensures
        match r {
            Some(v) => v == spec_part1_sum(cards_views(input@), input@.len() as int),
            None => spec_part1_sum(cards_views(input@), input@.len() as int) > u32::MAX,
        },
{
    let ghost cv = cards_views(input@);
    let mut acc: u32 = 0;
    let mut i: usize = 0;
    while i < input.len()
        invariant
            0 <= i <= input@.len(),
            cv == cards_views(input@),
            acc == spec_part1_sum(cv, i as int),
        decreases input@.len() - i,
    {
        let m = input[i].matching();
        proof {
            assert(cv[i as int] == (input@[i as int].winning@, input@[i as int].have@));
        }
        let score: u32 = if m == 0 {
            0
        } else {
            // double the score once per extra match
            let mut sc: u32 = 1;
            let mut k: usize = 1;
            while k < m
                invariant
                    1 <= k <= m,
                    sc == pow2(k - 1),
                    m == spec_match_of(cv[i as int]),
                    i < input@.len(),
                    cv == cards_views(input@),
                    acc == spec_part1_sum(cv, i as int),
                decreases m - k,
            {
                match sc.checked_mul(2) {
                    Some(x) => {
                        sc = x;
                    },
                    None => {
                        proof {
                            lemma_part1_sum_le(cv, i + 1, cv.len() as int);
                            lemma_pow2_cross(m - 1, k as int);
                        }
                        return None;
                    },
                }
                k = k + 1;
            }
            sc
        };
        match acc.checked_add(score) {
            Some(x) => {
                acc = x;
            },
            None => {
                proof {
                    lemma_part1_sum_le(cv, i + 1, cv.len() as int);
                }
                return None;
            },
        }
        i = i + 1;
    }
    Some(acc)
}

/// A longer doubling run only grows the score.
proof fn lemma_pow2_cross(a: int, b: int)
    requires
        b <= a,
    ensures
        pow2(b) <= pow2(a),
    decreases a - b,
{
    if b < a {
        lemma_pow2_cross(a - 1, b);
        lemma_pow2_pos(a - 1);
    }
}

/// Copies of each later card added once per match of an earlier card.
pub open spec fn apply_upto(copies: Seq<int>, i: int, hi: int) -> Seq<int> {
    Seq::new(
        copies.len(),
        |t: int|
            if i < t <= hi {
                copies[t] + copies[i]
            } else {
                copies[t]
            },
    )
}

/// Copy counts after the first `i` cards have handed out their copies.
pub open spec fn run_copies(ms: Seq<int>, n: int, i: int) -> Seq<int>
    decreases i,
{
    if i <= 0 {
        Seq::new(n as nat, |t: int| 1)
    } else {
        apply_upto(run_copies(ms, n, i - 1), i - 1, i - 1 + ms[i - 1])
    }
}

/// Every card must stay within the table when handing out copies.
pub open spec fn copies_valid(ms: Seq<int>, n: int) -> bool {
    forall|i: int| 0 <= i < ms.len() ==> i + #[trigger] ms[i] < n
}

pub open spec fn seq_int_sum(s: Seq<int>, i: int) -> int
    decreases i,
{
    if i <= 0 {
        0
    } else {
        seq_int_sum(s, i - 1) + s[i - 1]
    }
}

pub open spec fn spec_matches(cs: Seq<(Seq<i32>, Seq<i32>)>) -> Seq<int> {
    Seq::new(cs.len(), |i: int| spec_match_of(cs[i]))
}

proof fn lemma_run_nonneg(ms: Seq<int>, n: int, i: int)
    requires
        i >= 0,
        n >= 0,
    ensures
        run_copies(ms, n, i).len() == n,
        forall|t: int| 0 <= t < n ==> #[trigger] run_copies(ms, n, i)[t] >= 0,
    decreases i,
{
    if i > 0 {
        lemma_run_nonneg(ms, n, i - 1);
    }
}

/// A card's copy count never shrinks as later cards are processed.
proof fn lemma_run_monotone(ms: Seq<int>, n: int, i: int, j: int, t: int)
    requires
        0 <= i <= j,
        0 <= t < n,
    ensures
        run_copies(ms, n, i)[t] <= run_copies(ms, n, j)[t],
    decreases j - i,
{
    if i < j {
        lemma_run_monotone(ms, n, i, j - 1, t);
        lemma_run_nonneg(ms, n, j - 1);
    }
}

proof fn lemma_sum_le(s: Seq<int>, i: int, j: int)
    requires
        0 <= i <= j <= s.len(),
        forall|t: int| 0 <= t < s.len() ==> #[trigger] s[t] >= 0,
    ensures
        seq_int_sum(s, i) <= seq_int_sum(s, j),
    decreases j - i,
{
    if i < j {
        lemma_sum_le(s, i, j - 1);
    }
}

/// Total number of cards once copies cascade; `None` when a card would
/// copy past the end of the table or a count leaves the machine range.
pub fn part2(input: &Vec<Card>) -> (r: Option<usize>)
    ensures
        ({
            let ms = spec_matches(cards_views(input@));
            let n = input@.len() as int;
            let fin = run_copies(ms, n, n);
            match r {
                Some(v) => copies_valid(ms, n) && v == seq_int_sum(fin, n),
                None => !copies_valid(ms, n) || (exists|t: int|
                    0 <= t < n && #[trigger] fin[t] > usize::MAX) || seq_int_sum(fin, n)
                    > usize::MAX,
            }
        }),
{
    let ghost cv = cards_views(input@);
    let ghost ms = spec_matches(cv);
    let ghost n = input@.len() as int;
    let len = input.len();
    let mut copies: Vec<usize> = Vec::new();
    let mut t: usize = 0;
    while t < len
        invariant
            0 <= t <= len,
            copies@.len() == t,
            forall|u: int| 0 <= u < t ==> #[trigger] copies@[u] == 1,
        decreases len - t,
    {
        copies.push(1);
        t = t + 1;
    }
    proof {
        assert(forall|u: int|
            0 <= u < n ==> #[trigger] copies@[u] == run_copies(ms, n, 0)[u]);
    }
    let mut i: usize = 0;
    while i < len
        invariant
            0 <= i <= len,
            len == input@.len(),
            cv == cards_views(input@),
            ms == spec_matches(cv),
            n == input@.len() as int,
            copies@.len() == len,
            forall|u: int| 0 <= u < n ==> #[trigger] copies@[u] == run_copies(ms, n, i as int)[u],
            forall|u: int| 0 <= u < i ==> u + #[trigger] ms[u] < n,
        decreases len - i,
    {
        let m = input[i].matching();
        proof {
            assert(cv[i as int] == (input@[i as int].winning@, input@[i as int].have@));
            assert(ms[i as int] == m as int);
        }
        if m > 0 && m > len - 1 - i {
            proof {
                assert(i + ms[i as int] >= n);
                assert(!copies_valid(ms, n));
            }
            return None;
        }
        let base = copies[i];
        let ghost before: Seq<int> = run_copies(ms, n, i as int);
        proof {
            lemma_run_nonneg(ms, n, i as int);
        }
        let mut tt: usize = 1;
        while tt <= m
            invariant
                1 <= tt <= m + 1,
                0 <= i < len,
                i + m < len || m == 0,
                ms == spec_matches(cv),
                cv == cards_views(input@),
                ms[i as int] == m as int,
                before.len() == n,
                len == input@.len(),
                n == input@.len() as int,
                copies@.len() == len,
                base == before[i as int],
                before == run_copies(ms, n, i as int),
                forall|u: int|
                    0 <= u < n ==> #[trigger] copies@[u] == apply_upto(
                        before,
                        i as int,
                        i + tt - 1,
                    )[u],
            decreases m + 1 - tt,
        {
            let idx = i + tt;
            let cur = copies[idx];
            proof {
                assert(copies@[idx as int] == before[idx as int]);
            }
            match cur.checked_add(base) {
                Some(x) => {
                    let ghost prev = copies@;
                    copies.set(idx, x);
                    proof {
                        assert(forall|u: int|
                            0 <= u < n && u != idx ==> #[trigger] copies@[u] == prev[u]);
                    }
                },
                None => {
                    proof {
                        let fin = run_copies(ms, n, n);
                        lemma_run_nonneg(ms, n, n);
                        assert(run_copies(ms, n, i + 1)[idx as int] == before[idx as int]
                            + before[i as int]);
                        lemma_run_monotone(ms, n, i + 1, n, idx as int);
                        assert(fin[idx as int] > usize::MAX);
                    }
                    return None;
                },
            }
            tt = tt + 1;
        }
        proof {
            assert(run_copies(ms, n, i + 1) == apply_upto(before, i as int, i + m));
            assert(forall|u: int|
                0 <= u < n ==> #[trigger] copies@[u] == run_copies(ms, n, i + 1)[u]);
        }
        i = i + 1;
    }
    // sum the table
    let ghost fin = run_copies(ms, n, n);
    let mut acc: usize = 0;
    let mut t2: usize = 0;
    proof {
        lemma_run_nonneg(ms, n, n);
    }
    while t2 < len
        invariant
            0 <= t2 <= len,
            len == input@.len(),
            n == input@.len() as int,
            ms == spec_matches(cards_views(input@)),
            fin == run_copies(ms, n, n),
            fin.len() == n,
            copies@.len() == len,
            forall|u: int| 0 <= u < n ==> #[trigger] copies@[u] == fin[u],
            forall|u: int| 0 <= u < n ==> #[trigger] fin[u] >= 0,
            acc == seq_int_sum(fin, t2 as int),
        decreases len - t2,
    {
        match acc.checked_add(copies[t2]) {
            Some(x) => {
                acc = x;
            },
            None => {
                proof {
                    lemma_sum_le(fin, t2 + 1, n);
                }
                return None;
            },
        }
        t2 = t2 + 1;
    }
    Some(acc)
}

} // verus!
