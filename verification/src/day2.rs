//! Cube-game puzzle: each line lists draws of red, green and blue cubes;
//! decide which games fit a fixed bag and how big the smallest bag is.
use vstd::prelude::*;

use crate::parsing::{
    byte_views, spec_lines, split_lines, spec_tokens, tokens, spec_split, split_on,
    spec_parse_u64, parse_u64, first_index_of, lemma_first_index_of_exact,
    lemma_first_index_of_none, copy_range,
};
use vstd::string::StringSliceAdditionalSpecFns;

verus! {

#[derive(Debug, PartialEq, Eq, Structural, Clone, Copy)]
pub enum SetColor {
    Red(usize),
    Green(usize),
    Blue(usize),
}

#[derive(Debug, PartialEq, Eq, Structural, Clone, Copy)]
pub struct GameDistribution {
    pub red: usize,
    pub green: usize,
    pub blue: usize,
}

pub struct GameInfo {
    pub id: usize,
    pub distributions: Vec<GameDistribution>,
}

impl PartialEq for GameInfo {
    fn eq(&self, other: &GameInfo) -> (r: bool) {
        if self.id != other.id || self.distributions.len() != other.distributions.len() {
            return false;
        }
        let mut i: usize = 0;
        while i < self.distributions.len()
            invariant
                0 <= i <= self.distributions@.len(),
                self.distributions@.len() == other.distributions@.len(),
                forall|j: int|
                    0 <= j < i ==> self.distributions@[j] == other.distributions@[j],
            decreases self.distributions@.len() - i,
        {
            if self.distributions[i] != other.distributions[i] {
                return false;
            }
            i = i + 1;
        }
        proof {
            assert(self.distributions@ =~= other.distributions@);
        }
        true
    }
}

impl vstd::std_specs::cmp::PartialEqSpecImpl for GameInfo {
    open spec fn obeys_eq_spec() -> bool {
        true
    }

    open spec fn eq_spec(&self, other: &GameInfo) -> bool {
        self.id == other.id && self.distributions@ == other.distributions@
    }
}

/// The counts drawn, the last mention of a colour winning.
pub open spec fn dist_of(cs: Seq<SetColor>) -> GameDistribution
    decreases cs.len(),
{
    if cs.len() == 0 {
        GameDistribution { red: 0, green: 0, blue: 0 }
    } else {
        let prev = dist_of(cs.drop_last());
        match cs.last() {
            SetColor::Red(x) => GameDistribution { red: x, green: prev.green, blue: prev.blue },
            SetColor::Green(x) => GameDistribution { red: prev.red, green: x, blue: prev.blue },
            SetColor::Blue(x) => GameDistribution { red: prev.red, green: prev.green, blue: x },
        }
    }
}

impl GameDistribution {
    pub fn new(set_colors: Vec<SetColor>) -> (r: Self)
        ensures
            r == dist_of(set_colors@),
    {
        let mut red: usize = 0;
        let mut green: usize = 0;
        let mut blue: usize = 0;
        let mut i: usize = 0;
        while i < set_colors.len()
            invariant
                0 <= i <= set_colors@.len(),
                (GameDistribution { red, green, blue }) == dist_of(set_colors@.take(i as int)),
            decreases set_colors@.len() - i,
        {
            proof {
                assert(set_colors@.take(i + 1).drop_last() =~= set_colors@.take(i as int));
            }
            match set_colors[i] {
                SetColor::Red(x) => {
                    red = x;
                },
                SetColor::Green(x) => {
                    green = x;
                },
                SetColor::Blue(x) => {
                    blue = x;
                },
            }
            i = i + 1;
        }
        proof {
            assert(set_colors@.take(set_colors@.len() as int) =~= set_colors@);
        }
        GameDistribution { red, green, blue }
    }

    /// Whether this draw fits a bag of 12 red, 13 green and 14 blue cubes.
    pub fn is_possible(&self) -> (r: bool)
        ensures
            r == (self.red <= 12 && self.green <= 13 && self.blue <= 14),
    {
        self.red <= 12 && self.green <= 13 && self.blue <= 14
    }

    /// The product of the three counts.
    pub fn power(&self) -> (r: usize)
        requires
            power_ok(*self),
        ensures
            r == self.red * self.green * self.blue,
    {
        proof {
            assert(self.red * self.green >= 0) by (nonlinear_arith)
                requires
                    self.red >= 0,
                    self.green >= 0,
            ;
        }
        let rg = self.red * self.green;
        rg * self.blue
    }
}

impl GameInfo {
    pub fn is_possible(&self) -> (r: bool)
        ensures
            r == all_possible(self.distributions@, self.distributions@.len() as int),
    {
        let mut i: usize = 0;
        while i < self.distributions.len()
            invariant
                0 <= i <= self.distributions@.len(),
                all_possible(self.distributions@, i as int),
            decreases self.distributions@.len() - i,
        {
            let d = &self.distributions[i];
            if !(d.red <= 12 && d.green <= 13 && d.blue <= 14) {
                assert(!dist_possible(self.distributions@[i as int]));
                return false;
            }
            i = i + 1;
        }
        true
    }

    /// The smallest bag that covers every draw: the per-colour maximum.
    pub fn fewest(&self) -> (r: GameDistribution)
        ensures
            r == fewest_of(self.distributions@),
    {
        let mut acc = GameDistribution { red: 0, green: 0, blue: 0 };
        let mut i: usize = 0;
        while i < self.distributions.len()
            invariant
                0 <= i <= self.distributions@.len(),
                acc == fewest_of(self.distributions@.take(i as int)),
            decreases self.distributions@.len() - i,
        {
            proof {
                assert(self.distributions@.take(i + 1).drop_last() =~= self.distributions@.take(
                i as int));
            }
            let d = &self.distributions[i];
            let red = if d.red > acc.red {
                d.red
            } else {
                acc.red
            };
            let green = if d.green > acc.green {
                d.green
            } else {
                acc.green
            };
            let blue = if d.blue > acc.blue {
                d.blue
            } else {
                acc.blue
            };
            acc = GameDistribution { red, green, blue };
            i = i + 1;
        }
        proof {
            assert(self.distributions@.take(self.distributions@.len() as int)
                =~= self.distributions@);
        }
        acc
    }
}

/// Whether the product of the counts can be formed stepwise in machine
/// arithmetic.
pub open spec fn power_ok(f: GameDistribution) -> bool {
    f.red * f.green <= usize::MAX && f.red * f.green * f.blue <= usize::MAX
}

pub open spec fn dist_possible(d: GameDistribution) -> bool {
    d.red <= 12 && d.green <= 13 && d.blue <= 14
}

pub open spec fn all_possible(ds: Seq<GameDistribution>, i: int) -> bool {
    forall|j: int| 0 <= j < i ==> dist_possible(#[trigger] ds[j])
}

pub open spec fn fewest_of(ds: Seq<GameDistribution>) -> GameDistribution
    decreases ds.len(),
{
    if ds.len() == 0 {
        GameDistribution { red: 0, green: 0, blue: 0 }
    } else {
        let prev = fewest_of(ds.drop_last());
        let d = ds.last();
        GameDistribution {
            red: if d.red > prev.red {
                d.red
            } else {
                prev.red
            },
            green: if d.green > prev.green {
                d.green
            } else {
                prev.green
            },
            blue: if d.blue > prev.blue {
                d.blue
            } else {
                prev.blue
            },
        }
    }
}

/// One cube item: a count and a colour word.
pub open spec fn spec_item(item: Seq<u8>) -> Option<SetColor> {
    let ts = spec_tokens(item, 32);
    if ts.len() != 2 {
        None
    } else {
        match spec_parse_u64(ts[0]) {
            Some(v) => {
                if v > usize::MAX {
                    None
                } else if ts[1] =~= seq![114u8, 101u8, 100u8] {
                    Some(SetColor::Red(v as usize))
                } else if ts[1] =~= seq![103u8, 114u8, 101u8, 101u8, 110u8] {
                    Some(SetColor::Green(v as usize))
                } else if ts[1] =~= seq![98u8, 108u8, 117u8, 101u8] {
                    Some(SetColor::Blue(v as usize))
                } else {
                    None
                }
            },
            None => None,
        }
    }
}

fn parse_item(item: &Vec<u8>) -> (r: Option<SetColor>)
    ensures
        r == spec_item(item@),
{
    let ts = tokens(item.as_slice(), 32);
    proof {
        assert(byte_views(ts@) == spec_tokens(item@, 32));
    }
    if ts.len() != 2 {
        return None;
    }
    let v = match parse_u64(ts[0].as_slice()) {
        Some(v) => v,
        None => {
            return None;
        },
    };
    if v > usize::MAX as u64 {
        return None;
    }
    let w = &ts[1];
    if w.len() == 3 && w[0] == 114 && w[1] == 101 && w[2] == 100 {
        proof {
            assert(w@ =~= seq![114u8, 101u8, 100u8]);
        }
        return Some(SetColor::Red(v as usize));
    }
    if w.len() == 5 && w[0] == 103 && w[1] == 114 && w[2] == 101 && w[3] == 101 && w[4] == 110 {
        proof {
            assert(w@ =~= seq![103u8, 114u8, 101u8, 101u8, 110u8]);
        }
        return Some(SetColor::Green(v as usize));
    }
    if w.len() == 4 && w[0] == 98 && w[1] == 108 && w[2] == 117 && w[3] == 101 {
        proof {
            assert(w@ =~= seq![98u8, 108u8, 117u8, 101u8]);
        }
        return Some(SetColor::Blue(v as usize));
    }
    proof {
        assert(!(w@ =~= seq![114u8, 101u8, 100u8]));
        assert(!(w@ =~= seq![103u8, 114u8, 101u8, 101u8, 110u8]));
        assert(!(w@ =~= seq![98u8, 108u8, 117u8, 101u8]));
    }
    None
}

/// One draw: comma-separated cube items.
pub open spec fn spec_group(g: Seq<u8>) -> Option<Seq<SetColor>> {
    spec_group_upto(spec_split(g, 44), spec_split(g, 44).len() as int)
}

pub open spec fn spec_group_upto(items: Seq<Seq<u8>>, i: int) -> Option<Seq<SetColor>>
    decreases i,
{
    if i <= 0 {
        Some(Seq::empty())
    } else {
        match spec_group_upto(items, i - 1) {
            Some(front) => match spec_item(items[i - 1]) {
                Some(c) => Some(front.push(c)),
                None => None,
            },
            None => None,
        }
    }
}

fn parse_group(g: &Vec<u8>) -> (r: Option<Vec<SetColor>>)
    ensures
        match r {
            Some(v) => spec_group(g@) == Some(v@),
            None => spec_group(g@) is None,
        },
{
    let items = split_on(g.as_slice(), 44);
    let ghost iv = byte_views(items@);
    let mut out: Vec<SetColor> = Vec::new();
    let mut i: usize = 0;
    while i < items.len()
        invariant
            0 <= i <= items@.len(),
            iv == byte_views(items@),
            iv == spec_split(g@, 44),
            spec_group_upto(iv, i as int) == Some(out@),
        decreases items@.len() - i,
    {
        match parse_item(&items[i]) {
            Some(c) => {
                out.push(c);
            },
            None => {
                proof {
                    lemma_group_upto_none(iv, i + 1, iv.len() as int);
                }
                return None;
            },
        }
        i = i + 1;
    }
    Some(out)
}

proof fn lemma_group_upto_none(items: Seq<Seq<u8>>, i: int, n: int)
    requires
        0 <= i <= n,
        spec_group_upto(items, i) is None,
    ensures
        spec_group_upto(items, n) is None,
    decreases n - i,
{
    if i < n {
        lemma_group_upto_none(items, i + 1, n);
    }
}

/// One game line: the word `Game` and an id before the colon, then the
/// draws separated by semicolons.
pub open spec fn spec_parse_line(line: Seq<u8>) -> Option<(usize, Seq<GameDistribution>)> {
    let k = first_index_of(line, 58);
    if !(0 <= k < line.len()) {
        None
    } else {
        let head = spec_tokens(line.take(k), 32);
        if !(head.len() == 2 && head[0] =~= seq![71u8, 97u8, 109u8, 101u8]) {
            None
        } else {
            match spec_parse_u64(head[1]) {
                Some(id) => {
                    if id > usize::MAX {
                        None
                    } else {
                        let groups = spec_split(line.skip(k + 1), 59);
                        match spec_dists_upto(groups, groups.len() as int) {
                            Some(ds) => Some((id as usize, ds)),
                            None => None,
                        }
                    }
                },
                None => None,
            }
        }
    }
}

pub open spec fn spec_dists_upto(groups: Seq<Seq<u8>>, i: int) -> Option<Seq<GameDistribution>>
    decreases i,
{
    if i <= 0 {
        Some(Seq::empty())
    } else {
        match spec_dists_upto(groups, i - 1) {
            Some(front) => match spec_group(groups[i - 1]) {
                Some(cs) => Some(front.push(dist_of(cs))),
                None => None,
            },
            None => None,
        }
    }
}

proof fn lemma_dists_upto_none(groups: Seq<Seq<u8>>, i: int, n: int)
    requires
        0 <= i <= n,
        spec_dists_upto(groups, i) is None,
    ensures
        spec_dists_upto(groups, n) is None,
    decreases n - i,
{
    if i < n {
        lemma_dists_upto_none(groups, i + 1, n);
    }
}

fn parse_line(line: &Vec<u8>) -> (r: Option<GameInfo>)
    ensures
        match r {
            Some(g) => spec_parse_line(line@) == Some((g.id, g.distributions@)),
            None => spec_parse_line(line@) is None,
        },
{
    let mut k: usize = 0;
    while k < line.len() && line[k] != 58
        invariant
            0 <= k <= line@.len(),
            forall|j: int| 0 <= j < k ==> line@[j] != 58,
        decreases line@.len() - k,
    {
        k = k + 1;
    }
    proof {
        if k < line@.len() {
            lemma_first_index_of_exact(line@, 58, k as int);
        } else {
            lemma_first_index_of_none(line@, 58);
        }
    }
    if k >= line.len() {
        return None;
    }
    let headseg = copy_range(line, 0, k);
    proof {
        assert(headseg@ =~= line@.take(k as int));
    }
    let head = tokens(headseg.as_slice(), 32);
    if head.len() != 2 {
        return None;
    }
    let w0 = &head[0];
    let word_ok = w0.len() == 4 && w0[0] == 71 && w0[1] == 97 && w0[2] == 109 && w0[3] == 101;
    proof {
        if word_ok {
            assert(w0@ =~= seq![71u8, 97u8, 109u8, 101u8]);
        } else {
            assert(!(w0@ =~= seq![71u8, 97u8, 109u8, 101u8]));
        }
    }
    if !word_ok {
        return None;
    }
    let id64 = match parse_u64(head[1].as_slice()) {
        Some(v) => v,
        None => {
            return None;
        },
    };
    if id64 > usize::MAX as u64 {
        return None;
    }
    let rest = copy_range(line, k + 1, line.len());
    proof {
        assert(rest@ =~= line@.skip(k + 1));
    }
    let groups = split_on(rest.as_slice(), 59);
    let ghost gv = byte_views(groups@);
    proof {
        let sp = spec_tokens(line@.take(k as int), 32);
        assert(head@[0]@ == sp[0]);
        assert(head@[1]@ == sp[1]);
        assert(spec_parse_line(line@) == (match spec_dists_upto(gv, gv.len() as int) {
            Some(ds) => Some((id64 as usize, ds)),
            None => None,
        }));
    }
    let mut dists: Vec<GameDistribution> = Vec::new();
    let mut i: usize = 0;
    while i < groups.len()
        invariant
            0 <= i <= groups@.len(),
            gv == byte_views(groups@),
            spec_dists_upto(gv, i as int) == Some(dists@),
            id64 <= usize::MAX,
            spec_parse_line(line@) == (match spec_dists_upto(gv, gv.len() as int) {
                Some(ds) => Some((id64 as usize, ds)),
                None => None,
            }),
        decreases groups@.len() - i,
    {
        match parse_group(&groups[i]) {
            Some(cs) => {
                dists.push(GameDistribution::new(cs));
            },
            None => {
                proof {
                    lemma_dists_upto_none(gv, i + 1, gv.len() as int);
                }
                return None;
            },
        }
        i = i + 1;
    }
    Some(GameInfo { id: id64 as usize, distributions: dists })
}

/// Every line read as a game.
pub open spec fn spec_parse_games(ls: Seq<Seq<u8>>) -> Option<
    Seq<(usize, Seq<GameDistribution>)>,
>
    decreases ls.len(),
{
    if ls.len() == 0 {
        Some(Seq::empty())
    } else {
        match spec_parse_games(ls.drop_last()) {
            Some(front) => match spec_parse_line(ls.last()) {
                Some(g) => Some(front.push(g)),
                None => None,
            },
            None => None,
        }
    }
}

pub open spec fn games_views(s: Seq<GameInfo>) -> Seq<(usize, Seq<GameDistribution>)> {
    Seq::new(s.len(), |i: int| (s[i].id, s[i].distributions@))
}

proof fn lemma_parse_games_prefix_none(ls: Seq<Seq<u8>>, i: int)
    requires
        0 <= i <= ls.len(),
        spec_parse_games(ls.take(i)) is None,
    ensures
        spec_parse_games(ls) is None,
    decreases ls.len() - i,
{
    if i < ls.len() {
        assert(ls.take(i + 1).drop_last() =~= ls.take(i));
        lemma_parse_games_prefix_none(ls, i + 1);
    } else {
        assert(ls.take(i) =~= ls);
    }
}

pub fn parse(input: &str) -> (r: Option<Vec<GameInfo>>)
    ensures
        match r {
            Some(games) => Some(games_views(games@)) == spec_parse_games(
                spec_lines(input.spec_bytes()),
            ),
            None => spec_parse_games(spec_lines(input.spec_bytes())) is None,
        },
{
    let bytes = input.as_bytes();
    let lines = split_lines(bytes);
    let ghost lv = spec_lines(input.spec_bytes());
    let mut games: Vec<GameInfo> = Vec::new();
    let mut i: usize = 0;
    proof {
        assert(lv.take(0) =~= Seq::<Seq<u8>>::empty());
        assert(games_views(games@) =~= Seq::<(usize, Seq<GameDistribution>)>::empty());
    }
    while i < lines.len()
        invariant
            0 <= i <= lines@.len(),
            lv == spec_lines(input.spec_bytes()),
            byte_views(lines@) == lv,
            Some(games_views(games@)) == spec_parse_games(lv.take(i as int)),
        decreases lines@.len() - i,
    {
        proof {
            assert(lv.take(i + 1).drop_last() =~= lv.take(i as int));
            assert(lv.take(i + 1).last() == lines@[i as int]@);
        }
        match parse_line(&lines[i]) {
            Some(g) => {
                let ghost old_gv = games_views(games@);
                games.push(g);
                proof {
                    assert(games_views(games@) =~= old_gv.push(
                        (games@.last().id, games@.last().distributions@),
                    ));
                }
            },
            None => {
                proof {
                    lemma_parse_games_prefix_none(lv, i + 1);
                }
                return None;
            },
        }
        i = i + 1;
    }
    proof {
        assert(lv.take(lv.len() as int) =~= lv);
    }
    Some(games)
}

/// Sum of the ids of the games a 12-13-14 bag allows.
pub open spec fn spec_part1_sum(gs: Seq<(usize, Seq<GameDistribution>)>, i: int) -> int
    decreases i,
{
    if i <= 0 {
        0
    } else {
        spec_part1_sum(gs, i - 1) + (if all_possible(gs[i - 1].1, gs[i - 1].1.len() as int) {
            gs[i - 1].0 as int
        } else {
            0int
        })
    }
}

proof fn lemma_part1_sum_le(gs: Seq<(usize, Seq<GameDistribution>)>, i: int, j: int)
    requires
        0 <= i <= j,
    ensures
        spec_part1_sum(gs, i) <= spec_part1_sum(gs, j),
    decreases j - i,
{
    if i < j {
        lemma_part1_sum_le(gs, i, j - 1);
    }
}

pub fn part1(input: &Vec<GameInfo>) -> (r: Option<usize>)
    ensures
        match r {
            Some(v) => v == spec_part1_sum(games_views(input@), input@.len() as int),
            None => spec_part1_sum(games_views(input@), input@.len() as int) > usize::MAX,
        },
{
    let ghost gv = games_views(input@);
    let mut acc: usize = 0;
    let mut i: usize = 0;
    while i < input.len()
        invariant
            0 <= i <= input@.len(),
            gv == games_views(input@),
            acc == spec_part1_sum(gv, i as int),
        decreases input@.len() - i,
    {
        proof {
            assert(gv[i as int] == (input@[i as int].id, input@[i as int].distributions@));
        }
        let add = if input[i].is_possible() {
            input[i].id
        } else {
            0
        };
        match acc.checked_add(add) {
            Some(x) => {
                acc = x;
            },
            None => {
                proof {
                    lemma_part1_sum_le(gv, i + 1, gv.len() as int);
                }
                return None;
            },
        }
        i = i + 1;
    }
    Some(acc)
}

/// Sum of the powers of each game's smallest bag.
pub open spec fn spec_part2_sum(gs: Seq<(usize, Seq<GameDistribution>)>, i: int) -> int
    decreases i,
{
    if i <= 0 {
        0
    } else {
        let f = fewest_of(gs[i - 1].1);
        spec_part2_sum(gs, i - 1) + f.red * f.green * f.blue
    }
}

proof fn lemma_part2_sum_le(gs: Seq<(usize, Seq<GameDistribution>)>, i: int, j: int)
    requires
        0 <= i <= j,
    ensures
        spec_part2_sum(gs, i) <= spec_part2_sum(gs, j),
    decreases j - i,
{
    if i < j {
        lemma_part2_sum_le(gs, i, j - 1);
        let f = fewest_of(gs[j - 1].1);
        assert(f.red * f.green * f.blue >= 0) by (nonlinear_arith)
            requires
                f.red >= 0,
                f.green >= 0,
                f.blue >= 0,
        ;
    }
}

pub fn part2(input: &Vec<GameInfo>) -> (r: Option<usize>)
    ensures
        ({
            let gs = games_views(input@);
            let n = input@.len() as int;
            match r {
                Some(v) => {
                    &&& forall|t: int|
                        0 <= t < n ==> power_ok(fewest_of((#[trigger] gs[t]).1))
                    &&& v == spec_part2_sum(gs, n)
                },
                None => (exists|t: int|
                    0 <= t < n && !power_ok(fewest_of((#[trigger] gs[t]).1)))
                    || spec_part2_sum(gs, n) > usize::MAX,
            }
        }),
{
    let ghost gv = games_views(input@);
    let mut acc: usize = 0;
    let mut i: usize = 0;
    while i < input.len()
        invariant
            0 <= i <= input@.len(),
            gv == games_views(input@),
            acc == spec_part2_sum(gv, i as int),
            forall|t: int| 0 <= t < i ==> power_ok(fewest_of((#[trigger] gv[t]).1)),
        decreases input@.len() - i,
    {
        proof {
            assert(gv[i as int] == (input@[i as int].id, input@[i as int].distributions@));
        }
        let f = input[i].fewest();
        let rg = match f.red.checked_mul(f.green) {
            Some(x) => x,
            None => {
                proof {
                    assert(!power_ok(fewest_of(gv[i as int].1)));
                }
                return None;
            },
        };
        let pwr = match rg.checked_mul(f.blue) {
            Some(x) => x,
            None => {
                proof {
                    assert(!power_ok(fewest_of(gv[i as int].1)));
                }
                return None;
            },
        };
        match acc.checked_add(pwr) {
            Some(x) => {
                acc = x;
            },
            None => {
                proof {
                    lemma_part2_sum_le(gv, i + 1, gv.len() as int);
                }
                return None;
            },
        }
        i = i + 1;
    }
    Some(acc)
}

} // verus!
