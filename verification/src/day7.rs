//! Camel-cards puzzle: rank hands by kind and then card by card, and sum
//! rank times bid; in the second reading jacks are jokers that mimic the
//! most numerous other card but rank lowest on their own.
use vstd::prelude::*;

use crate::parsing::{
    byte_views, spec_lines, split_lines, spec_tokens, tokens, spec_parse_u64, parse_u64,
};
use crate::sorting::{pair_views, spec_sort, sort_pairs};
use vstd::pervasive::VecAdditionalExecFns;
use vstd::string::StringSliceAdditionalSpecFns;

verus! {

#[derive(Debug, PartialEq, Eq, Structural, Clone, Copy)]
pub enum Card {
    Two,
    Three,
    Four,
    Five,
    Six,
    Seven,
    Eight,
    Nine,
    Ten,
    J,
    Q,
    K,
    A,
}

#[derive(Debug, PartialEq, Eq, Structural, Clone, Copy)]
pub enum CardPartTwo {
    J,
    Two,
    Three,
    Four,
    Five,
    Six,
    Seven,
    Eight,
    Nine,
    Ten,
    Q,
    K,
    A,
}

#[derive(Debug, PartialEq, Eq, Structural, Clone, Copy)]
pub enum HandKind {
    HighCard,
    OnePair,
    TwoPair,
    ThreeOfAKind,
    FullHouse,
    FourOfAKind,
    FiveOfAKind,
}

pub open spec fn card_to2(c: Card) -> CardPartTwo {
    match c {
        Card::A => CardPartTwo::A,
        Card::K => CardPartTwo::K,
        Card::Q => CardPartTwo::Q,
        Card::J => CardPartTwo::J,
        Card::Ten => CardPartTwo::Ten,
        Card::Nine => CardPartTwo::Nine,
        Card::Eight => CardPartTwo::Eight,
        Card::Seven => CardPartTwo::Seven,
        Card::Six => CardPartTwo::Six,
        Card::Five => CardPartTwo::Five,
        Card::Four => CardPartTwo::Four,
        Card::Three => CardPartTwo::Three,
        Card::Two => CardPartTwo::Two,
    }
}

impl From<Card> for CardPartTwo {
    fn from(value: Card) -> (r: Self) {
        match value {
            Card::A => CardPartTwo::A,
            Card::K => CardPartTwo::K,
            Card::Q => CardPartTwo::Q,
            Card::J => CardPartTwo::J,
            Card::Ten => CardPartTwo::Ten,
            Card::Nine => CardPartTwo::Nine,
            Card::Eight => CardPartTwo::Eight,
            Card::Seven => CardPartTwo::Seven,
            Card::Six => CardPartTwo::Six,
            Card::Five => CardPartTwo::Five,
            Card::Four => CardPartTwo::Four,
            Card::Three => CardPartTwo::Three,
            Card::Two => CardPartTwo::Two,
        }
    }
}

impl vstd::std_specs::convert::FromSpecImpl<Card> for CardPartTwo {
    open spec fn obeys_from_spec() -> bool {
        true
    }

    open spec fn from_spec(t: Card) -> CardPartTwo {
        card_to2(t)
    }
}

/// The strength order of the first reading: two lowest, ace highest.
pub open spec fn card_rank(c: Card) -> int {
    match c {
        Card::Two => 0,
        Card::Three => 1,
        Card::Four => 2,
        Card::Five => 3,
        Card::Six => 4,
        Card::Seven => 5,
        Card::Eight => 6,
        Card::Nine => 7,
        Card::Ten => 8,
        Card::J => 9,
        Card::Q => 10,
        Card::K => 11,
        Card::A => 12,
    }
}

/// The strength order of the second reading: the joker lowest of all.
pub open spec fn card2_rank(c: CardPartTwo) -> int {
    match c {
        CardPartTwo::J => 0,
        CardPartTwo::Two => 1,
        CardPartTwo::Three => 2,
        CardPartTwo::Four => 3,
        CardPartTwo::Five => 4,
        CardPartTwo::Six => 5,
        CardPartTwo::Seven => 6,
        CardPartTwo::Eight => 7,
        CardPartTwo::Nine => 8,
        CardPartTwo::Ten => 9,
        CardPartTwo::Q => 10,
        CardPartTwo::K => 11,
        CardPartTwo::A => 12,
    }
}

pub open spec fn kind_rank(k: HandKind) -> int {
    match k {
        HandKind::HighCard => 0,
        HandKind::OnePair => 1,
        HandKind::TwoPair => 2,
        HandKind::ThreeOfAKind => 3,
        HandKind::FullHouse => 4,
        HandKind::FiveOfAKind => 6,
        HandKind::FourOfAKind => 5,
    }
}

/// How many of the first `i` ranks equal `r`.
pub open spec fn count_rank(ranks: Seq<int>, r: int, i: int) -> int
    decreases i,
{
    if i <= 0 {
        0
    } else {
        count_rank(ranks, r, i - 1) + (if ranks[i - 1] == r {
            1int
        } else {
            0int
        })
    }
}

/// The largest and second largest entries among the first `i` counts.
pub open spec fn top_two(counts: Seq<int>, i: int) -> (int, int)
    decreases i,
{
    if i <= 0 {
        (0, 0)
    } else {
        let (m, s) = top_two(counts, i - 1);
        let c = counts[i - 1];
        if c > m {
            (c, m)
        } else if c > s {
            (m, c)
        } else {
            (m, s)
        }
    }
}

/// The kind read off the two largest counts of a hand.
pub open spec fn classify(m: int, s: int) -> HandKind {
    if m == 5 {
        HandKind::FiveOfAKind
    } else if m == 4 {
        HandKind::FourOfAKind
    } else if m == 3 && s == 2 {
        HandKind::FullHouse
    } else if m == 3 {
        HandKind::ThreeOfAKind
    } else if m == 2 && s == 2 {
        HandKind::TwoPair
    } else if m == 2 {
        HandKind::OnePair
    } else {
        HandKind::HighCard
    }
}

pub open spec fn ranks1(cards: Seq<Card>) -> Seq<int> {
    Seq::new(cards.len(), |i: int| card_rank(cards[i]))
}

pub open spec fn ranks2(cards: Seq<CardPartTwo>) -> Seq<int> {
    Seq::new(cards.len(), |i: int| card2_rank(cards[i]))
}

pub open spec fn counts_of(ranks: Seq<int>) -> Seq<int> {
    Seq::new(13, |r: int| count_rank(ranks, r, ranks.len() as int))
}

pub open spec fn spec_kind1(cards: Seq<Card>) -> HandKind {
    let (m, s) = top_two(counts_of(ranks1(cards)), 13);
    classify(m, s)
}

/// With the jokers set aside, they join the most numerous other card.
pub open spec fn spec_kind2(cards: Seq<CardPartTwo>) -> HandKind {
    let counts = counts_of(ranks2(cards));
    let cj = counts[0];
    if cj == 5 {
        HandKind::FiveOfAKind
    } else {
        let (m, s) = top_two(counts.skip(1), 12);
        classify(m + cj, s)
    }
}

/// A hand that the joker reading accepts: all jokers, or at least one
/// plain card for the jokers to join.
pub open spec fn hand2_ok(cards: Seq<CardPartTwo>) -> bool {
    counts_of(ranks2(cards))[0] == 5 || exists|i: int|
        0 <= i < cards.len() && cards[i] != CardPartTwo::J
}

pub struct Hand<C> {
    pub cards: Vec<C>,
}

fn card_rank_exec(c: Card) -> (r: usize)
    ensures
        r == card_rank(c),
{
    match c {
        Card::Two => 0,
        Card::Three => 1,
        Card::Four => 2,
        Card::Five => 3,
        Card::Six => 4,
        Card::Seven => 5,
        Card::Eight => 6,
        Card::Nine => 7,
        Card::Ten => 8,
        Card::J => 9,
        Card::Q => 10,
        Card::K => 11,
        Card::A => 12,
    }
}

fn card2_rank_exec(c: CardPartTwo) -> (r: usize)
    ensures
        r == card2_rank(c),
{
    match c {
        CardPartTwo::J => 0,
        CardPartTwo::Two => 1,
        CardPartTwo::Three => 2,
        CardPartTwo::Four => 3,
        CardPartTwo::Five => 4,
        CardPartTwo::Six => 5,
        CardPartTwo::Seven => 6,
        CardPartTwo::Eight => 7,
        CardPartTwo::Nine => 8,
        CardPartTwo::Ten => 9,
        CardPartTwo::Q => 10,
        CardPartTwo::K => 11,
        CardPartTwo::A => 12,
    }
}

/// The rank counts of a rank list.
fn count_ranks(ranks: &Vec<usize>) -> (counts: Vec<usize>)
    requires
        forall|i: int| 0 <= i < ranks@.len() ==> #[trigger] ranks@[i] < 13,
    ensures
        counts@.len() == 13,
        forall|r: int|
            0 <= r < 13 ==> #[trigger] counts@[r] == count_rank(
                Seq::new(ranks@.len(), |i: int| ranks@[i] as int),
                r,
                ranks@.len() as int,
            ),
{
    let ghost rs = Seq::new(ranks@.len(), |i: int| ranks@[i] as int);
    let mut counts: Vec<usize> = Vec::new();
    let mut r: usize = 0;
    while r < 13
        invariant
            counts@.len() == r,
            0 <= r <= 13,
            forall|t: int| 0 <= t < r ==> #[trigger] counts@[t] == 0,
        decreases 13 - r,
    {
        counts.push(0);
        r = r + 1;
    }
    let mut i: usize = 0;
    while i < ranks.len()
        invariant
            0 <= i <= ranks@.len(),
            rs == Seq::new(ranks@.len(), |t: int| ranks@[t] as int),
            forall|t: int| 0 <= t < ranks@.len() ==> #[trigger] ranks@[t] < 13,
            counts@.len() == 13,
            forall|t: int| 0 <= t < 13 ==> #[trigger] counts@[t] == count_rank(rs, t, i as int),
            forall|t: int| 0 <= t < 13 ==> #[trigger] counts@[t] <= i,
        decreases ranks@.len() - i,
    {
        let rk = ranks[i];
        let c = counts[rk];
        counts.set(rk, c + 1);
        i = i + 1;
    }
    counts
}

/// The two largest counts.
fn top_two_exec(counts: &Vec<usize>, from: usize) -> (r: (usize, usize))
    requires
        from <= counts@.len(),
    ensures
        (r.0 as int, r.1 as int) == top_two(
            Seq::new((counts@.len() - from) as nat, |i: int| counts@[from + i] as int),
            counts@.len() - from,
        ),
{
    let ghost cs = Seq::new((counts@.len() - from) as nat, |i: int| counts@[from + i] as int);
    let mut m: usize = 0;
    let mut s: usize = 0;
    let mut i: usize = from;
    while i < counts.len()
        invariant
            from <= i <= counts@.len(),
            cs == Seq::new((counts@.len() - from) as nat, |t: int| counts@[from + t] as int),
            (m as int, s as int) == top_two(cs, i - from),
        decreases counts@.len() - i,
    {
        let c = counts[i];
        if c > m {
            s = m;
            m = c;
        } else if c > s {
            s = c;
        }
        i = i + 1;
    }
    (m, s)
}

fn classify_exec(m: usize, s: usize) -> (k: HandKind)
    ensures
        k == classify(m as int, s as int),
{
    if m == 5 {
        HandKind::FiveOfAKind
    } else if m == 4 {
        HandKind::FourOfAKind
    } else if m == 3 && s == 2 {
        HandKind::FullHouse
    } else if m == 3 {
        HandKind::ThreeOfAKind
    } else if m == 2 && s == 2 {
        HandKind::TwoPair
    } else if m == 2 {
        HandKind::OnePair
    } else {
        HandKind::HighCard
    }
}

impl Hand<Card> {
    /// The kind of the hand under the first reading.
    pub fn kind(&self) -> (k: HandKind)
        ensures
            k == spec_kind1(self.cards@),
    {
        let mut ranks: Vec<usize> = Vec::new();
        let mut i: usize = 0;
        while i < self.cards.len()
            invariant
                0 <= i <= self.cards@.len(),
                ranks@.len() == i,
                forall|t: int| 0 <= t < i ==> #[trigger] ranks@[t] < 13,
                forall|t: int|
                    0 <= t < i ==> #[trigger] ranks@[t] as int == card_rank(self.cards@[t]),
            decreases self.cards@.len() - i,
        {
            ranks.push(card_rank_exec(self.cards[i]));
            i = i + 1;
        }
        let counts = count_ranks(&ranks);
        proof {
            assert(Seq::new(ranks@.len(), |t: int| ranks@[t] as int) =~= ranks1(self.cards@));
            assert(forall|r: int|
                0 <= r < 13 ==> #[trigger] counts@[r] as int == counts_of(ranks1(
                self.cards@))[r]);
        }
        let (m, s) = top_two_exec(&counts, 0);
        proof {
            assert(Seq::new(counts@.len() as nat, |t: int| counts@[0 + t] as int)
                =~= counts_of(ranks1(self.cards@)));
        }
        classify_exec(m, s)
    }
}

impl Hand<CardPartTwo> {
    /// The kind of the hand under the joker reading.
    pub fn kind(&self) -> (k: HandKind)
        requires
            hand2_ok(self.cards@),
        ensures
            k == spec_kind2(self.cards@),
    {
        let mut ranks: Vec<usize> = Vec::new();
        let mut i: usize = 0;
        while i < self.cards.len()
            invariant
                0 <= i <= self.cards@.len(),
                ranks@.len() == i,
                forall|t: int| 0 <= t < i ==> #[trigger] ranks@[t] < 13,
                forall|t: int|
                    0 <= t < i ==> #[trigger] ranks@[t] as int == card2_rank(self.cards@[t]),
            decreases self.cards@.len() - i,
        {
            ranks.push(card2_rank_exec(self.cards[i]));
            i = i + 1;
        }
        let counts = count_ranks(&ranks);
        proof {
            assert(Seq::new(ranks@.len(), |t: int| ranks@[t] as int) =~= ranks2(self.cards@));
            assert(forall|r: int|
                0 <= r < 13 ==> #[trigger] counts@[r] as int == counts_of(ranks2(
                self.cards@))[r]);
        }
        let cj = counts[0];
        if cj == 5 {
            return HandKind::FiveOfAKind;
        }
        let (m, s) = top_two_exec(&counts, 1);
        proof {
            assert(Seq::new((counts@.len() - 1) as nat, |t: int| counts@[1 + t] as int)
                =~= counts_of(ranks2(self.cards@)).skip(1));
        }
        let mj: usize = if m >= 6 || cj >= 6 {
            6
        } else {
            m + cj
        };
        proof {
            assert(classify(mj as int, s as int) == classify(m + cj, s as int));
        }
        classify_exec(mj, s)
    }
}

pub struct Draw {
    pub hand: Hand<Card>,
    pub bid: usize,
}

pub open spec fn draws_views(s: Seq<Draw>) -> Seq<(Seq<Card>, usize)> {
    Seq::new(s.len(), |i: int| (s[i].hand.cards@, s[i].bid))
}

/// The sort key of the first reading: the kind, then the cards in order.
pub open spec fn spec_key1(cards: Seq<Card>) -> Seq<u64> {
    seq![kind_rank(spec_kind1(cards)) as u64] + Seq::new(
        cards.len(),
        |i: int| card_rank(cards[i]) as u64,
    )
}

/// The sort key of the joker reading on the converted cards.
pub open spec fn spec_key2(cards: Seq<CardPartTwo>) -> Seq<u64> {
    seq![kind_rank(spec_kind2(cards)) as u64] + Seq::new(
        cards.len(),
        |i: int| card2_rank(cards[i]) as u64,
    )
}

/// Rank times bid, summed over the first `i` sorted entries.
pub open spec fn rank_sum(s: Seq<(Seq<u64>, usize)>, i: int) -> int
    decreases i,
{
    if i <= 0 {
        0
    } else {
        rank_sum(s, i - 1) + i * s[i - 1].1
    }
}

proof fn lemma_rank_sum_le(s: Seq<(Seq<u64>, usize)>, i: int, j: int)
    requires
        0 <= i <= j,
    ensures
        rank_sum(s, i) <= rank_sum(s, j),
    decreases j - i,
{
    if i < j {
        lemma_rank_sum_le(s, i, j - 1);
        assert(j * s[j - 1].1 >= 0) by (nonlinear_arith)
            requires
                j >= 1,
                s[j - 1].1 >= 0,
        ;
    }
}

fn rank_sum_exec(sorted: &Vec<(Vec<u64>, usize)>) -> (r: Option<usize>)
    ensures
        ({
            let sv = pair_views(sorted@);
            match r {
                Some(v) => v == rank_sum(sv, sv.len() as int),
                None => rank_sum(sv, sv.len() as int) > usize::MAX,
            }
        }),
{
    let ghost sv = pair_views(sorted@);
    let mut acc: usize = 0;
    let mut i: usize = 0;
    while i < sorted.len()
        invariant
            0 <= i <= sorted@.len(),
            sv == pair_views(sorted@),
            acc == rank_sum(sv, i as int),
        decreases sorted@.len() - i,
    {
        let bid = sorted[i].1;
        let term = match (i + 1).checked_mul(bid) {
            Some(x) => x,
            None => {
                proof {
                    lemma_rank_sum_le(sv, i + 1, sv.len() as int);
                }
                return None;
            },
        };
        match acc.checked_add(term) {
            Some(x) => {
                acc = x;
            },
            None => {
                proof {
                    lemma_rank_sum_le(sv, i + 1, sv.len() as int);
                }
                return None;
            },
        }
        i = i + 1;
    }
    Some(acc)
}

/// The keyed pairs of the first reading.
pub open spec fn keyed1(ds: Seq<(Seq<Card>, usize)>) -> Seq<(Seq<u64>, usize)> {
    Seq::new(ds.len(), |i: int| (spec_key1(ds[i].0), ds[i].1))
}

/// The keyed pairs of the joker reading.
pub open spec fn keyed2(ds: Seq<(Seq<Card>, usize)>) -> Seq<(Seq<u64>, usize)> {
    Seq::new(
        ds.len(),
        |i: int|
            (spec_key2(Seq::new(ds[i].0.len(), |j: int| card_to2(ds[i].0[j]))), ds[i].1),
    )
}

fn key_of1(hand: &Hand<Card>) -> (r: Vec<u64>)
    ensures
        r@ == spec_key1(hand.cards@),
{
    let k = hand.kind();
    let mut key: Vec<u64> = Vec::new();
    let kr: u64 = match k {
        HandKind::HighCard => 0,
        HandKind::OnePair => 1,
        HandKind::TwoPair => 2,
        HandKind::ThreeOfAKind => 3,
        HandKind::FullHouse => 4,
        HandKind::FourOfAKind => 5,
        HandKind::FiveOfAKind => 6,
    };
    key.push(kr);
    let mut i: usize = 0;
    while i < hand.cards.len()
        invariant
            0 <= i <= hand.cards@.len(),
            key@.len() == i + 1,
            key@[0] == kind_rank(spec_kind1(hand.cards@)) as u64,
            forall|t: int|
                1 <= t < i + 1 ==> #[trigger] key@[t] == card_rank(hand.cards@[t - 1]) as u64,
        decreases hand.cards@.len() - i,
    {
        key.push(card_rank_exec(hand.cards[i]) as u64);
        i = i + 1;
    }
    proof {
        assert(key@ =~= spec_key1(hand.cards@));
    }
    key
}

fn key_of2(hand: &Hand<Card>) -> (r: Vec<u64>)
    requires
        hand2_ok(Seq::new(hand.cards@.len(), |j: int| card_to2(hand.cards@[j]))),
    ensures
        r@ == spec_key2(Seq::new(hand.cards@.len(), |j: int| card_to2(hand.cards@[j]))),
{
    let ghost conv = Seq::new(hand.cards@.len(), |j: int| card_to2(hand.cards@[j]));
    let mut cards2: Vec<CardPartTwo> = Vec::new();
    let mut i: usize = 0;
    while i < hand.cards.len()
        invariant
            0 <= i <= hand.cards@.len(),
            conv == Seq::new(hand.cards@.len(), |j: int| card_to2(hand.cards@[j])),
            cards2@.len() == i,
            forall|t: int| 0 <= t < i ==> #[trigger] cards2@[t] == card_to2(hand.cards@[t]),
        decreases hand.cards@.len() - i,
    {
        cards2.push(CardPartTwo::from(hand.cards[i]));
        i = i + 1;
    }
    proof {
        assert(cards2@ =~= conv);
    }
    let hand2 = Hand::<CardPartTwo> { cards: cards2 };
    let k = hand2.kind();
    let mut key: Vec<u64> = Vec::new();
    let kr: u64 = match k {
        HandKind::HighCard => 0,
        HandKind::OnePair => 1,
        HandKind::TwoPair => 2,
        HandKind::ThreeOfAKind => 3,
        HandKind::FullHouse => 4,
        HandKind::FourOfAKind => 5,
        HandKind::FiveOfAKind => 6,
    };
    key.push(kr);
    let mut i2: usize = 0;
    while i2 < hand2.cards.len()
        invariant
            0 <= i2 <= hand2.cards@.len(),
            hand2.cards@ == conv,
            key@.len() == i2 + 1,
            key@[0] == kind_rank(spec_kind2(conv)) as u64,
            forall|t: int|
                1 <= t < i2 + 1 ==> #[trigger] key@[t] == card2_rank(conv[t - 1]) as u64,
        decreases hand2.cards@.len() - i2,
    {
        key.push(card2_rank_exec(hand2.cards[i2]) as u64);
        i2 = i2 + 1;
    }
    proof {
        assert(key@ =~= spec_key2(conv));
    }
    key
}

/// Sum of rank times bid after sorting by the first reading's keys.
pub fn part1(input: &Vec<Draw>) -> (r: Option<usize>)
    ensures
        ({
            let st = spec_sort(keyed1(draws_views(input@)));
            match r {
                Some(v) => v == rank_sum(st, st.len() as int),
                None => rank_sum(st, st.len() as int) > usize::MAX,
            }
        }),
{
    let ghost dv = draws_views(input@);
    let mut pairs: Vec<(Vec<u64>, usize)> = Vec::new();
    let mut i: usize = 0;
    while i < input.len()
        invariant
            0 <= i <= input@.len(),
            dv == draws_views(input@),
            pairs@.len() == i,
            forall|t: int|
                0 <= t < i ==> #[trigger] pair_views(pairs@)[t] == keyed1(dv)[t],
        decreases input@.len() - i,
    {
        let key = key_of1(&input[i].hand);
        let bid = input[i].bid;
        proof {
            assert(dv[i as int] == (input@[i as int].hand.cards@, input@[i as int].bid));
        }
        let ghost oldp = pair_views(pairs@);
        pairs.push((key, bid));
        proof {
            assert(pair_views(pairs@) =~= oldp.push((key@, bid)));
        }
        i = i + 1;
    }
    proof {
        assert(pair_views(pairs@) =~= keyed1(dv));
    }
    let sorted = sort_pairs(&pairs);
    rank_sum_exec(&sorted)
}

/// Sum of rank times bid after sorting by the joker reading's keys.
pub fn part2(input: &Vec<Draw>) -> (r: Option<usize>)
    requires
        forall|i: int|
            0 <= i < input@.len() ==> hand2_ok(
                Seq::new(
                    (#[trigger] input@[i]).hand.cards@.len(),
                    |j: int| card_to2(input@[i].hand.cards@[j]),
                ),
            ),
    ensures
        ({
            let st = spec_sort(keyed2(draws_views(input@)));
            match r {
                Some(v) => v == rank_sum(st, st.len() as int),
                None => rank_sum(st, st.len() as int) > usize::MAX,
            }
        }),
{
    let ghost dv = draws_views(input@);
    let mut pairs: Vec<(Vec<u64>, usize)> = Vec::new();
    let mut i: usize = 0;
    while i < input.len()
        invariant
            0 <= i <= input@.len(),
            dv == draws_views(input@),
            forall|t: int|
                0 <= t < input@.len() ==> hand2_ok(
                    Seq::new(
                        (#[trigger] input@[t]).hand.cards@.len(),
                        |j: int| card_to2(input@[t].hand.cards@[j]),
                    ),
                ),
            pairs@.len() == i,
            forall|t: int|
                0 <= t < i ==> #[trigger] pair_views(pairs@)[t] == keyed2(dv)[t],
        decreases input@.len() - i,
    {
        let key = key_of2(&input[i].hand);
        let bid = input[i].bid;
        proof {
            assert(dv[i as int] == (input@[i as int].hand.cards@, input@[i as int].bid));
            assert(Seq::new(input@[i as int].hand.cards@.len(), |j: int| card_to2(input@[
            i as int].hand.cards@[j])) =~= Seq::new(dv[i as int].0.len(), |j: int| card_to2(
            dv[i as int].0[j])));
        }
        let ghost oldp = pair_views(pairs@);
        pairs.push((key, bid));
        proof {
            assert(pair_views(pairs@) =~= oldp.push((key@, bid)));
        }
        i = i + 1;
    }
    proof {
        assert(pair_views(pairs@) =~= keyed2(dv));
    }
    let sorted = sort_pairs(&pairs);
    rank_sum_exec(&sorted)
}

/// A card character of the hand alphabet.
pub open spec fn spec_card_of(b: u8) -> Option<Card> {
    if b == 65 {
        Some(Card::A)
    } else if b == 75 {
        Some(Card::K)
    } else if b == 81 {
        Some(Card::Q)
    } else if b == 74 {
        Some(Card::J)
    } else if b == 84 {
        Some(Card::Ten)
    } else if b == 57 {
        Some(Card::Nine)
    } else if b == 56 {
        Some(Card::Eight)
    } else if b == 55 {
        Some(Card::Seven)
    } else if b == 54 {
        Some(Card::Six)
    } else if b == 53 {
        Some(Card::Five)
    } else if b == 52 {
        Some(Card::Four)
    } else if b == 51 {
        Some(Card::Three)
    } else if b == 50 {
        Some(Card::Two)
    } else {
        None
    }
}

fn card_of(b: u8) -> (r: Option<Card>)
    ensures
        r == spec_card_of(b),
{
    if b == 65 {
        Some(Card::A)
    } else if b == 75 {
        Some(Card::K)
    } else if b == 81 {
        Some(Card::Q)
    } else if b == 74 {
        Some(Card::J)
    } else if b == 84 {
        Some(Card::Ten)
    } else if b == 57 {
        Some(Card::Nine)
    } else if b == 56 {
        Some(Card::Eight)
    } else if b == 55 {
        Some(Card::Seven)
    } else if b == 54 {
        Some(Card::Six)
    } else if b == 53 {
        Some(Card::Five)
    } else if b == 52 {
        Some(Card::Four)
    } else if b == 51 {
        Some(Card::Three)
    } else if b == 50 {
        Some(Card::Two)
    } else {
        None
    }
}

/// One draw line: the hand characters, then the bid.
pub open spec fn spec_parse_draw(line: Seq<u8>) -> Option<(Seq<Card>, usize)> {
    let ts = spec_tokens(line, 32);
    if ts.len() != 2 {
        None
    } else {
        match (spec_cards_upto(ts[0], ts[0].len() as int), spec_parse_u64(ts[1])) {
            (Some(cs), Some(b)) => if b <= usize::MAX {
                Some((cs, b as usize))
            } else {
                None
            },
            _ => None,
        }
    }
}

pub open spec fn spec_cards_upto(s: Seq<u8>, i: int) -> Option<Seq<Card>>
    decreases i,
{
    if i <= 0 {
        Some(Seq::empty())
    } else {
        match (spec_cards_upto(s, i - 1), spec_card_of(s[i - 1])) {
            (Some(front), Some(c)) => Some(front.push(c)),
            _ => None,
        }
    }
}

proof fn lemma_cards_upto_none(s: Seq<u8>, i: int, n: int)
    requires
        0 <= i <= n,
        spec_cards_upto(s, i) is None,
    ensures
        spec_cards_upto(s, n) is None,
    decreases n - i,
{
    if i < n {
        lemma_cards_upto_none(s, i + 1, n);
    }
}

fn parse_draw(line: &Vec<u8>) -> (r: Option<Draw>)
    ensures
        match r {
            Some(d) => spec_parse_draw(line@) == Some((d.hand.cards@, d.bid)),
            None => spec_parse_draw(line@) is None,
        },
{
    let ts = tokens(line.as_slice(), 32);
    let ghost tv = byte_views(ts@);
    if ts.len() != 2 {
        return None;
    }
    let handseg = &ts[0];
    let ghost hv = tv[0];
    proof {
        assert(hv == ts@[0]@);
    }
    let mut cards: Vec<Card> = Vec::new();
    let mut i: usize = 0;
    while i < handseg.len()
        invariant
            0 <= i <= handseg@.len(),
            hv == handseg@,
            tv == spec_tokens(line@, 32),
            tv.len() == 2,
            hv == tv[0],
            spec_cards_upto(hv, i as int) == Some(cards@),
        decreases handseg@.len() - i,
    {
        match card_of(handseg[i]) {
            Some(c) => {
                cards.push(c);
            },
            None => {
                proof {
                    lemma_cards_upto_none(hv, i + 1, hv.len() as int);
                }
                return None;
            },
        }
        i = i + 1;
    }
    let bid64 = match parse_u64(ts[1].as_slice()) {
        Some(v) => v,
        None => {
            return None;
        },
    };
    if bid64 > usize::MAX as u64 {
        return None;
    }
    Some(Draw { hand: Hand { cards }, bid: bid64 as usize })
}

/// Every line read as a draw.
pub open spec fn spec_parse_draws(ls: Seq<Seq<u8>>) -> Option<Seq<(Seq<Card>, usize)>>
    decreases ls.len(),
{
    if ls.len() == 0 {
        Some(Seq::empty())
    } else {
        match (spec_parse_draws(ls.drop_last()), spec_parse_draw(ls.last())) {
            (Some(front), Some(d)) => Some(front.push(d)),
            _ => None,
        }
    }
}

proof fn lemma_parse_draws_prefix_none(ls: Seq<Seq<u8>>, i: int)
    requires
        0 <= i <= ls.len(),
        spec_parse_draws(ls.take(i)) is None,
    ensures
        spec_parse_draws(ls) is None,
    decreases ls.len() - i,
{
    if i < ls.len() {
        assert(ls.take(i + 1).drop_last() =~= ls.take(i));
        lemma_parse_draws_prefix_none(ls, i + 1);
    } else {
        assert(ls.take(i) =~= ls);
    }
}

pub fn parse(input: &str) -> (r: Option<Vec<Draw>>)
    ensures
        match r {
            Some(draws) => Some(draws_views(draws@)) == spec_parse_draws(
                spec_lines(input.spec_bytes()),
            ),
            None => spec_parse_draws(spec_lines(input.spec_bytes())) is None,
        },
{
    let bytes = input.as_bytes();
    let lines = split_lines(bytes);
    let ghost lv = spec_lines(input.spec_bytes());
    let mut draws: Vec<Draw> = Vec::new();
    let mut i: usize = 0;
    proof {
        assert(lv.take(0) =~= Seq::<Seq<u8>>::empty());
        assert(draws_views(draws@) =~= Seq::<(Seq<Card>, usize)>::empty());
    }
    while i < lines.len()
        invariant
            0 <= i <= lines@.len(),
            lv == spec_lines(input.spec_bytes()),
            byte_views(lines@) == lv,
            Some(draws_views(draws@)) == spec_parse_draws(lv.take(i as int)),
        decreases lines@.len() - i,
    {
        proof {
            assert(lv.take(i + 1).drop_last() =~= lv.take(i as int));
            assert(lv.take(i + 1).last() == lines@[i as int]@);
        }
        match parse_draw(&lines[i]) {
            Some(d) => {
                let ghost old_dv = draws_views(draws@);
                draws.push(d);
                proof {
                    assert(draws_views(draws@) =~= old_dv.push(
                        (draws@.last().hand.cards@, draws@.last().bid),
                    ));
                }
            },
            None => {
                proof {
                    lemma_parse_draws_prefix_none(lv, i + 1);
                }
                return None;
            },
        }
        i = i + 1;
    }
    proof {
        assert(lv.take(lv.len() as int) =~= lv);
    }
    Some(draws)
}

} // verus!
