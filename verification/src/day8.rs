//! Desert-network puzzle: follow left/right instructions through a node
//! network until the goal node; ghost starts run in parallel and meet after
//! the least common multiple of their path lengths.
use vstd::prelude::*;

use crate::parsing::{
    byte_views, group_views, spec_groups, spec_lines, split_lines, group_lines, spec_tokens,
    tokens, spec_split, split_on, first_index_of, lemma_first_index_of_exact,
    lemma_first_index_of_none, copy_range, bytes_eq,
};
use vstd::string::StringSliceAdditionalSpecFns;

verus! {

#[derive(Debug, PartialEq, Eq, Structural, Clone, Copy)]
pub enum Instruction {
    Left,
    Right,
}

pub struct NodeInfo {
    pub name: Vec<u8>,
    pub left: Vec<u8>,
    pub right: Vec<u8>,
}

/// The node network and the instruction tape.
pub struct Network {
    pub nodes: Vec<NodeInfo>,
    pub instructions: Vec<Instruction>,
}

pub open spec fn nodes_views(s: Seq<NodeInfo>) -> Seq<(Seq<u8>, Seq<u8>, Seq<u8>)> {
    Seq::new(s.len(), |i: int| (s[i].name@, s[i].left@, s[i].right@))
}

/// The index of the last entry carrying the name, or -1: a name written
/// twice keeps only its last entry, as a keyed table would.
pub open spec fn lookup(net: Seq<(Seq<u8>, Seq<u8>, Seq<u8>)>, name: Seq<u8>) -> int
    decreases net.len(),
{
    if net.len() == 0 {
        -1
    } else if net.last().0 == name {
        net.len() - 1
    } else {
        lookup(net.drop_last(), name)
    }
}

proof fn lemma_lookup_skip_tail(net: Seq<(Seq<u8>, Seq<u8>, Seq<u8>)>, name: Seq<u8>, i: int)
    requires
        0 <= i <= net.len(),
        forall|j: int| i <= j < net.len() ==> (#[trigger] net[j]).0 != name,
    ensures
        lookup(net, name) == lookup(net.take(i), name),
    decreases net.len() - i,
{
    if i < net.len() {
        lemma_lookup_skip_tail(net, name, i + 1);
        assert(net.take(i + 1).drop_last() =~= net.take(i));
        assert(net.take(net.len() as int) =~= net);
        if i + 1 == net.len() {
            assert(net.take(i + 1) =~= net);
        }
    } else {
        assert(net.take(i) =~= net);
    }
}

proof fn lemma_lookup_at(net: Seq<(Seq<u8>, Seq<u8>, Seq<u8>)>, name: Seq<u8>, i: int)
    requires
        0 <= i < net.len(),
        net[i].0 == name,
        forall|j: int| i < j < net.len() ==> (#[trigger] net[j]).0 != name,
    ensures
        lookup(net, name) == i,
    decreases net.len(),
{
    lemma_lookup_skip_tail(net, name, i + 1);
    assert(net.take(i + 1).last().0 == name);
}

/// Find a name in the node table, taking the last entry on a repeat.
fn find_node(nodes: &Vec<NodeInfo>, name: &Vec<u8>) -> (r: Option<usize>)
    ensures
        match r {
            Some(i) => lookup(nodes_views(nodes@), name@) == i && i < nodes@.len(),
            None => lookup(nodes_views(nodes@), name@) == -1,
        },
{
    let ghost nv = nodes_views(nodes@);
    let mut i: usize = nodes.len();
    while i > 0
        invariant
            0 <= i <= nodes@.len(),
            nv == nodes_views(nodes@),
            forall|j: int| i <= j < nv.len() ==> (#[trigger] nv[j]).0 != name@,
        decreases i,
    {
        i = i - 1;
        if bytes_eq(&nodes[i].name, name) {
            proof {
                lemma_lookup_at(nv, name@, i as int);
            }
            return Some(i);
        }
        proof {
            assert(nv[i as int].0 != name@);
        }
    }
    proof {
        lemma_lookup_skip_tail(nv, name@, 0);
        assert(nv.take(0) =~= Seq::<(Seq<u8>, Seq<u8>, Seq<u8>)>::empty());
    }
    None
}

/// The node reached after `n` steps, or `None` once a name is missing.
pub open spec fn walk(
    net: Seq<(Seq<u8>, Seq<u8>, Seq<u8>)>,
    instrs: Seq<Instruction>,
    start: Seq<u8>,
    n: nat,
) -> Option<Seq<u8>>
    decreases n,
{
    if n == 0 {
        Some(start)
    } else {
        match walk(net, instrs, start, (n - 1) as nat) {
            Some(cur) => {
                let k = lookup(net, cur);
                if k == -1 || instrs.len() == 0 {
                    None
                } else {
                    match instrs[((n - 1) as int) % (instrs.len() as int)] {
                        Instruction::Left => Some(net[k].1),
                        Instruction::Right => Some(net[k].2),
                    }
                }
            },
            None => None,
        }
    }
}

/// Whether a node name meets the goal: the goal name itself, or any name
/// ending in the goal suffix.
pub open spec fn goal_met(name: Seq<u8>, goal: Seq<u8>, exact: bool) -> bool {
    if exact {
        name == goal
    } else {
        goal.len() <= name.len() && name.skip(name.len() - goal.len()) == goal
    }
}

/// The first step count in `[n, cap)` whose node meets the goal.
pub open spec fn hit_from(
    net: Seq<(Seq<u8>, Seq<u8>, Seq<u8>)>,
    instrs: Seq<Instruction>,
    start: Seq<u8>,
    goal: Seq<u8>,
    exact: bool,
    n: int,
    cap: int,
) -> Option<int>
    decreases cap - n,
{
    if !(0 <= n < cap) {
        None
    } else {
        match walk(net, instrs, start, n as nat) {
            Some(cur) => {
                if goal_met(cur, goal, exact) {
                    Some(n)
                } else {
                    hit_from(net, instrs, start, goal, exact, n + 1, cap)
                }
            },
            None => None,
        }
    }
}

/// How many steps this solver is willing to take: one more than the number
/// of distinct walking states, within the machine range.
pub open spec fn spec_cap(net_len: int, instr_len: int) -> int {
    if net_len * instr_len + 1 <= usize::MAX {
        net_len * instr_len + 1
    } else {
        usize::MAX as int
    }
}

fn goal_check(name: &Vec<u8>, goal: &Vec<u8>, exact: bool) -> (r: bool)
    ensures
        r == goal_met(name@, goal@, exact),
{
    if exact {
        bytes_eq(name, goal)
    } else {
        if goal.len() > name.len() {
            return false;
        }
        let tail = copy_range(name, name.len() - goal.len(), name.len());
        proof {
            assert(tail@ =~= name@.skip(name@.len() - goal@.len()));
        }
        bytes_eq(&tail, goal)
    }
}

/// Steps from `start` until the goal is met, searching no further than the
/// solver's cap; `None` when a name is missing, the instruction tape is
/// empty before the goal, or no step within the cap meets the goal.
pub fn find_path_length_for_node(
    nodes: &Vec<NodeInfo>,
    instructions: &Vec<Instruction>,
    start: &Vec<u8>,
    goal: &Vec<u8>,
    exact: bool,
) -> (r: Option<usize>)
    ensures
        ({
            let net = nodes_views(nodes@);
            let cap = spec_cap(net.len() as int, instructions@.len() as int);
            match r {
                Some(s) => hit_from(net, instructions@, start@, goal@, exact, 0, cap) == Some(
                    s as int,
                ),
                None => hit_from(net, instructions@, start@, goal@, exact, 0, cap) is None,
            }
        }),
{
    let ghost net = nodes_views(nodes@);
    let ghost iv = instructions@;
    let cap: usize = match nodes.len().checked_mul(instructions.len()) {
        Some(p) => {
            if p < usize::MAX {
                p + 1
            } else {
                usize::MAX
            }
        },
        None => usize::MAX,
    };
    let mut current: Vec<u8> = start.clone();
    let mut n: usize = 0;
    while n < cap
        invariant
            0 <= n <= cap,
            cap == spec_cap(net.len() as int, iv.len() as int),
            net == nodes_views(nodes@),
            iv == instructions@,
            walk(net, iv, start@, n as nat) == Some(current@),
            hit_from(net, iv, start@, goal@, exact, 0, cap as int) == hit_from(
                net,
                iv,
                start@,
                goal@,
                exact,
                n as int,
                cap as int,
            ),
        decreases cap - n,
    {
        if goal_check(&current, goal, exact) {
            return Some(n);
        }
        let k = match find_node(nodes, &current) {
            Some(k) => k,
            None => {
                proof {
                    assert(walk(net, iv, start@, (n + 1) as nat) is None);
                    assert(hit_from(net, iv, start@, goal@, exact, n + 1, cap as int)
                        is None);
                    assert(hit_from(net, iv, start@, goal@, exact, n as int, cap as int)
                        is None);
                }
                return None;
            },
        };
        if instructions.len() == 0 {
            proof {
                assert(walk(net, iv, start@, (n + 1) as nat) is None);
                assert(hit_from(net, iv, start@, goal@, exact, n + 1, cap as int) is None);
                assert(hit_from(net, iv, start@, goal@, exact, n as int, cap as int)
                    is None);
            }
            return None;
        }
        let ip = n % instructions.len();
        let node = &nodes[k];
        proof {
            assert(net[k as int] == (nodes@[k as int].name@, nodes@[k as int].left@, nodes@[
            k as int].right@));
        }
        current = match instructions[ip] {
            Instruction::Left => node.left.clone(),
            Instruction::Right => node.right.clone(),
        };
        n = n + 1;
    }
    None
}

/// One node line: a name, an equals sign, and the two branch names in
/// parentheses.
pub open spec fn spec_parse_node(line: Seq<u8>) -> Option<(Seq<u8>, Seq<u8>, Seq<u8>)> {
    let k = first_index_of(line, 40);
    if !(0 <= k < line.len() && line.len() >= 2 && line.last() == 41 && k < line.len() - 1) {
        None
    } else {
        let head = spec_tokens(line.take(k), 32);
        if !(head.len() == 2 && head[1] =~= seq![61u8]) {
            None
        } else {
            let sides = spec_split(line.subrange(k + 1, line.len() - 1), 44);
            if sides.len() != 2 {
                None
            } else {
                let lts = spec_tokens(sides[0], 32);
                let rts = spec_tokens(sides[1], 32);
                if lts.len() == 1 && rts.len() == 1 {
                    Some((head[0], lts[0], rts[0]))
                } else {
                    None
                }
            }
        }
    }
}

fn parse_node(line: &Vec<u8>) -> (r: Option<NodeInfo>)
    ensures
        match r {
            Some(nd) => spec_parse_node(line@) == Some((nd.name@, nd.left@, nd.right@)),
            None => spec_parse_node(line@) is None,
        },
{
    let mut k: usize = 0;
    while k < line.len() && line[k] != 40
        invariant
            0 <= k <= line@.len(),
            forall|j: int| 0 <= j < k ==> line@[j] != 40,
        decreases line@.len() - k,
    {
        k = k + 1;
    }
    proof {
        if k < line@.len() {
            lemma_first_index_of_exact(line@, 40, k as int);
        } else {
            lemma_first_index_of_none(line@, 40);
        }
    }
    if k >= line.len() || line.len() < 2 || line[line.len() - 1] != 41 || k >= line.len() - 1 {
        return None;
    }
    let headseg = copy_range(line, 0, k);
    proof {
        assert(headseg@ =~= line@.take(k as int));
    }
    let head = tokens(headseg.as_slice(), 32);
    if head.len() != 2 {
        return None;
    }
    let eqw = &head[1];
    let eq_ok = eqw.len() == 1 && eqw[0] == 61;
    proof {
        if eq_ok {
            assert(eqw@ =~= seq![61u8]);
        } else {
            assert(!(eqw@ =~= seq![61u8]));
        }
    }
    if !eq_ok {
        return None;
    }
    let inner = copy_range(line, k + 1, line.len() - 1);
    proof {
        assert(inner@ =~= line@.subrange(k + 1, line@.len() - 1));
    }
    let sides = split_on(inner.as_slice(), 44);
    if sides.len() != 2 {
        return None;
    }
    let lts = tokens(sides[0].as_slice(), 32);
    let rts = tokens(sides[1].as_slice(), 32);
    if lts.len() != 1 || rts.len() != 1 {
        return None;
    }
    let name = head[0].clone();
    let left = lts[0].clone();
    let right = rts[0].clone();
    Some(NodeInfo { name, left, right })
}

/// The instruction line: a string of the letters L and R.
pub open spec fn spec_parse_instrs(line: Seq<u8>) -> Option<Seq<Instruction>> {
    if forall|i: int| 0 <= i < line.len() ==> #[trigger] line[i] == 76 || line[i] == 82 {
        Some(
            Seq::new(
                line.len(),
                |i: int|
                    if line[i] == 76 {
                        Instruction::Left
                    } else {
                        Instruction::Right
                    },
            ),
        )
    } else {
        None
    }
}

fn parse_instrs(line: &Vec<u8>) -> (r: Option<Vec<Instruction>>)
    ensures
        match r {
            Some(v) => spec_parse_instrs(line@) == Some(v@),
            None => spec_parse_instrs(line@) is None,
        },
{
    let mut out: Vec<Instruction> = Vec::new();
    let mut i: usize = 0;
    while i < line.len()
        invariant
            0 <= i <= line@.len(),
            out@.len() == i,
            forall|j: int| 0 <= j < i ==> #[trigger] line@[j] == 76 || line@[j] == 82,
            forall|j: int|
                0 <= j < i ==> #[trigger] out@[j] == (if line@[j] == 76 {
                    Instruction::Left
                } else {
                    Instruction::Right
                }),
        decreases line@.len() - i,
    {
        let b = line[i];
        if b == 76 {
            out.push(Instruction::Left);
        } else if b == 82 {
            out.push(Instruction::Right);
        } else {
            return None;
        }
        i = i + 1;
    }
    proof {
        assert(spec_parse_instrs(line@) is Some);
        assert(out@ =~= spec_parse_instrs(line@).unwrap());
    }
    Some(out)
}

/// The whole input: the instruction line, a blank line, then the nodes.
pub open spec fn spec_parse(s: Seq<u8>) -> Option<(Seq<Instruction>, Seq<(Seq<u8>, Seq<u8>, Seq<u8>)>)> {
    let gs = spec_groups(spec_lines(s));
    if gs.len() != 2 || gs[0].len() != 1 {
        None
    } else {
        match spec_parse_instrs(gs[0][0]) {
            Some(instrs) => match spec_nodes_upto(gs[1], gs[1].len() as int) {
                Some(ns) => Some((instrs, ns)),
                None => None,
            },
            None => None,
        }
    }
}

pub open spec fn spec_nodes_upto(ls: Seq<Seq<u8>>, i: int) -> Option<
    Seq<(Seq<u8>, Seq<u8>, Seq<u8>)>,
>
    decreases i,
{
    if i <= 0 {
        Some(Seq::empty())
    } else {
        match spec_nodes_upto(ls, i - 1) {
            Some(front) => match spec_parse_node(ls[i - 1]) {
                Some(nd) => Some(front.push(nd)),
                None => None,
            },
            None => None,
        }
    }
}

proof fn lemma_nodes_upto_none(ls: Seq<Seq<u8>>, i: int, n: int)
    requires
        0 <= i <= n,
        spec_nodes_upto(ls, i) is None,
    ensures
        spec_nodes_upto(ls, n) is None,
    decreases n - i,
{
    if i < n {
        lemma_nodes_upto_none(ls, i + 1, n);
    }
}

pub fn parse(input: &str) -> (r: Option<Network>)
    ensures
        match r {
            Some(m) => spec_parse(input.spec_bytes()) == Some(
                (m.instructions@, nodes_views(m.nodes@)),
            ),
            None => spec_parse(input.spec_bytes()) is None,
        },
{
    let bytes = input.as_bytes();
    let lines = split_lines(bytes);
    let groups = group_lines(&lines);
    let ghost gs = spec_groups(spec_lines(input.spec_bytes()));
    proof {
        assert(group_views(groups@) == gs);
        assert(gs.len() == groups@.len());
    }
    if groups.len() != 2 {
        return None;
    }
    proof {
        assert(byte_views(groups@[0]@) == gs[0]);
        assert(byte_views(groups@[1]@) == gs[1]);
    }
    if groups[0].len() != 1 {
        return None;
    }
    proof {
        assert(groups@[0]@[0]@ == gs[0][0]);
    }
    let instrs = match parse_instrs(&groups[0][0]) {
        Some(v) => v,
        None => {
            return None;
        },
    };
    let nlines = &groups[1];
    let ghost nl = gs[1];
    proof {
        assert(spec_parse(input.spec_bytes()) == (match spec_nodes_upto(nl, nl.len() as int) {
            Some(ns) => Some((instrs@, ns)),
            None => None,
        }));
    }
    let mut nodes: Vec<NodeInfo> = Vec::new();
    let mut i: usize = 0;
    proof {
        assert(nodes_views(nodes@) =~= Seq::<(Seq<u8>, Seq<u8>, Seq<u8>)>::empty());
    }
    while i < nlines.len()
        invariant
            0 <= i <= nlines@.len(),
            nl == byte_views(nlines@),
            spec_nodes_upto(nl, i as int) == Some(nodes_views(nodes@)),
            spec_parse(input.spec_bytes()) == (match spec_nodes_upto(nl, nl.len() as int) {
                Some(ns) => Some((instrs@, ns)),
                None => None,
            }),
        decreases nlines@.len() - i,
    {
        proof {
            assert(nl[i as int] == nlines@[i as int]@);
        }
        match parse_node(&nlines[i]) {
            Some(nd) => {
                let ghost old_nv = nodes_views(nodes@);
                nodes.push(nd);
                proof {
                    assert(nodes_views(nodes@) =~= old_nv.push(
                        (nodes@.last().name@, nodes@.last().left@, nodes@.last().right@),
                    ));
                }
            },
            None => {
                proof {
                    lemma_nodes_upto_none(nl, i + 1, nl.len() as int);
                }
                return None;
            },
        }
        i = i + 1;
    }
    Some(Network { nodes, instructions: instrs })
}

/// The greatest common divisor, by Euclid's rule.
pub open spec fn spec_gcd(a: nat, b: nat) -> nat
    decreases b,
{
    if b == 0 {
        a
    } else {
        spec_gcd(b, a % b)
    }
}

/// The least common multiple, zero when either side is zero.
pub open spec fn spec_lcm(a: nat, b: nat) -> nat {
    if a == 0 || b == 0 {
        0
    } else {
        (a * b) / spec_gcd(a, b)
    }
}

/// Relies on num::integer::lcm: the least common multiple, computed as the
/// product divided by the greatest common divisor.
#[verifier::external_body]
fn lcm_u64(a: u64, b: u64) -> (r: u64)
    requires
        a * b <= u64::MAX,
    ensures
        r == spec_lcm(a as nat, b as nat),
{
    num::integer::lcm(a, b)
}

/// Steps from the triple-A node to the triple-Z node.
pub fn part1(input: &Network) -> (r: Option<usize>)
    ensures
        ({
            let net = nodes_views(input.nodes@);
            let cap = spec_cap(net.len() as int, input.instructions@.len() as int);
            let aaa = seq![65u8, 65u8, 65u8];
            let zzz = seq![90u8, 90u8, 90u8];
            match r {
                Some(s) => hit_from(net, input.instructions@, aaa, zzz, true, 0, cap) == Some(
                    s as int,
                ),
                None => hit_from(net, input.instructions@, aaa, zzz, true, 0, cap) is None,
            }
        }),
{
    let mut aaa: Vec<u8> = Vec::new();
    aaa.push(65);
    aaa.push(65);
    aaa.push(65);
    let mut zzz: Vec<u8> = Vec::new();
    zzz.push(90);
    zzz.push(90);
    zzz.push(90);
    proof {
        assert(aaa@ =~= seq![65u8, 65u8, 65u8]);
        assert(zzz@ =~= seq![90u8, 90u8, 90u8]);
    }
    find_path_length_for_node(&input.nodes, &input.instructions, &aaa, &zzz, true)
}

/// The path lengths of every start node, a start being a name ending in A.
pub open spec fn spec_start_hits(
    net: Seq<(Seq<u8>, Seq<u8>, Seq<u8>)>,
    instrs: Seq<Instruction>,
    i: int,
) -> Option<Seq<int>>
    decreases i,
{
    let cap = spec_cap(net.len() as int, instrs.len() as int);
    if i <= 0 {
        Some(Seq::empty())
    } else {
        match spec_start_hits(net, instrs, i - 1) {
            Some(front) => {
                let name = net[i - 1].0;
                if goal_met(name, seq![65u8], false) {
                    match hit_from(net, instrs, name, seq![90u8], false, 0, cap) {
                        Some(s) => Some(front.push(s)),
                        None => None,
                    }
                } else {
                    Some(front)
                }
            },
            None => None,
        }
    }
}

/// The folded least common multiple of the path lengths; `None` on an
/// empty list or once a product leaves the machine range.
pub open spec fn spec_fold_lcm(ls: Seq<int>, i: int) -> Option<int>
    decreases i,
{
    if i <= 0 || ls.len() == 0 {
        None
    } else if i == 1 {
        Some(ls[0])
    } else {
        match spec_fold_lcm(ls, i - 1) {
            Some(acc) => {
                if 0 <= acc && 0 <= ls[i - 1] && acc * ls[i - 1] <= u64::MAX {
                    Some(spec_lcm(acc as nat, ls[i - 1] as nat) as int)
                } else {
                    None
                }
            },
            None => None,
        }
    }
}

proof fn lemma_start_hits_none(
    net: Seq<(Seq<u8>, Seq<u8>, Seq<u8>)>,
    instrs: Seq<Instruction>,
    i: int,
    n: int,
)
    requires
        0 <= i <= n,
        spec_start_hits(net, instrs, i) is None,
    ensures
        spec_start_hits(net, instrs, n) is None,
    decreases n - i,
{
    if i < n {
        lemma_start_hits_none(net, instrs, i + 1, n);
    }
}

proof fn lemma_fold_lcm_none(ls: Seq<int>, i: int, n: int)
    requires
        1 <= i <= n,
        spec_fold_lcm(ls, i) is None,
    ensures
        spec_fold_lcm(ls, n) is None,
    decreases n - i,
{
    if i < n {
        lemma_fold_lcm_none(ls, i + 1, n);
    }
}

/// Steps until every ghost start walks on a goal node at once: the folded
/// least common multiple of the individual path lengths.
pub fn part2(input: &Network) -> (r: Option<u64>)
    ensures
        ({
            let net = nodes_views(input.nodes@);
            match r {
                Some(v) => {
                    &&& spec_start_hits(net, input.instructions@, net.len() as int) is Some
                    &&& {
                        let hits = spec_start_hits(
                            net,
                            input.instructions@,
                            net.len() as int,
                        ).unwrap();
                        spec_fold_lcm(hits, hits.len() as int) == Some(v as int)
                    }
                },
                None => spec_start_hits(net, input.instructions@, net.len() as int) is None || {
                    let hits = spec_start_hits(
                        net,
                        input.instructions@,
                        net.len() as int,
                    ).unwrap();
                    spec_fold_lcm(hits, hits.len() as int) is None
                },
            }
        }),
{
    let ghost net = nodes_views(input.nodes@);
    let ghost iv = input.instructions@;
    let mut suffix_a: Vec<u8> = Vec::new();
    suffix_a.push(65);
    let mut suffix_z: Vec<u8> = Vec::new();
    suffix_z.push(90);
    proof {
        assert(suffix_a@ =~= seq![65u8]);
        assert(suffix_z@ =~= seq![90u8]);
    }
    let mut hits: Vec<u64> = Vec::new();
    let mut i: usize = 0;
    while i < input.nodes.len()
        invariant
            0 <= i <= input.nodes@.len(),
            net == nodes_views(input.nodes@),
            iv == input.instructions@,
            suffix_a@ == seq![65u8],
            suffix_z@ == seq![90u8],
            spec_start_hits(net, iv, i as int) == Some(
                Seq::new(hits@.len(), |t: int| hits@[t] as int),
            ),
        decreases input.nodes@.len() - i,
    {
        proof {
            assert(net[i as int] == (input.nodes@[i as int].name@, input.nodes@[
            i as int].left@, input.nodes@[i as int].right@));
        }
        let name = &input.nodes[i].name;
        if goal_check(name, &suffix_a, false) {
            match find_path_length_for_node(
                &input.nodes,
                &input.instructions,
                name,
                &suffix_z,
                false,
            ) {
                Some(s) => {
                    let ghost old_hits = Seq::new(hits@.len(), |t: int| hits@[t] as int);
                    hits.push(s as u64);
                    proof {
                        assert(Seq::new(hits@.len(), |t: int| hits@[t] as int)
                            =~= old_hits.push(s as int));
                    }
                },
                None => {
                    proof {
                        lemma_start_hits_none(net, iv, i + 1, net.len() as int);
                    }
                    return None;
                },
            }
        }
        i = i + 1;
    }
    let ghost hseq = Seq::new(hits@.len(), |t: int| hits@[t] as int);
    if hits.len() == 0 {
        return None;
    }
    let mut acc: u64 = hits[0];
    let mut j: usize = 1;
    while j < hits.len()
        invariant
            1 <= j <= hits@.len(),
            hseq == Seq::new(hits@.len(), |t: int| hits@[t] as int),
            net == nodes_views(input.nodes@),
            iv == input.instructions@,
            spec_start_hits(net, iv, net.len() as int) == Some(hseq),
            spec_fold_lcm(hseq, j as int) == Some(acc as int),
        decreases hits@.len() - j,
    {
        let b = hits[j];
        match acc.checked_mul(b) {
            Some(_) => {},
            None => {
                proof {
                    lemma_fold_lcm_none(hseq, j + 1, hseq.len() as int);
                }
                return None;
            },
        }
        acc = lcm_u64(acc, b);
        j = j + 1;
    }
    Some(acc)
}

} // verus!
