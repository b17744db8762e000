//! Lens-box puzzle: a running hash over comma-separated steps, and a bank of
//! 256 boxes of labelled lenses driven by remove and set instructions.
use vstd::prelude::*;

use crate::parsing::{
    byte_views, spec_parse_u64, spec_split, parse_u64, all_alpha, check_all_alpha,
    first_index_of, lemma_first_index_of_none, lemma_first_index_of_exact, bytes_eq,
    copy_range,
};
use vstd::pervasive::VecAdditionalExecFns;
use vstd::string::StringSliceAdditionalSpecFns;

verus! {

/// One step of the running hash: add the byte, multiply by 17, reduce mod 256.
pub open spec fn spec_hash(s: Seq<u8>) -> int
    decreases s.len(),
{
    if s.len() == 0 {
        0
    } else {
        ((spec_hash(s.drop_last()) + s.last()) * 17) % 256
    }
}

pub fn hash(input: &Vec<u8>) -> (r: usize)
    ensures
        r == spec_hash(input@),
        0 <= r < 256,
{
    let mut acc: usize = 0;
    let mut i: usize = 0;
    while i < input.len()
        invariant
            0 <= i <= input@.len(),
            0 <= acc < 256,
            acc == spec_hash(input@.take(i as int)),
        decreases input@.len() - i,
    {
        proof {
            assert(input@.take(i + 1).drop_last() =~= input@.take(i as int));
        }
        acc = ((acc + input[i] as usize) * 17) % 256;
        i = i + 1;
    }
    proof {
        assert(input@.take(input@.len() as int) =~= input@);
    }
    acc
}

/// The chunks between commas, with newline bytes dropped from each chunk.
pub open spec fn spec_parse(s: Seq<u8>) -> Seq<Seq<u8>> {
    Seq::new(
        spec_split(s, 44).len(),
        |i: int| spec_split(s, 44)[i].filter(|b: u8| b != 10),
    )
}

pub fn parse(input: &str) -> (r: Vec<Vec<u8>>)
    ensures
        byte_views(r@) == spec_parse(input.spec_bytes()),
{
    let bytes = input.as_bytes();
    let parts = crate::parsing::split_on(bytes, 44);
    let mut out: Vec<Vec<u8>> = Vec::new();
    let mut i: usize = 0;
    while i < parts.len()
        invariant
            0 <= i <= parts@.len(),
            byte_views(parts@) == spec_split(input.spec_bytes(), 44),
            byte_views(out@).len() == i,
            forall|k: int|
                0 <= k < i ==> byte_views(out@)[k] == spec_parse(input.spec_bytes())[k],
        decreases parts@.len() - i,
    {
        let part = &parts[i];
        let mut cleaned: Vec<u8> = Vec::new();
        let mut j: usize = 0;
        proof {
            reveal(Seq::filter);
            assert(part@.take(0) =~= Seq::<u8>::empty());
        }
        while j < part.len()
            invariant
                0 <= j <= part@.len(),
                cleaned@ == part@.take(j as int).filter(|b: u8| b != 10),
            decreases part@.len() - j,
        {
            proof {
                reveal(Seq::filter);
                assert(part@.take(j + 1).drop_last() =~= part@.take(j as int));
            }
            if part[j] != 10 {
                cleaned.push(part[j]);
            }
            j = j + 1;
        }
        proof {
            assert(part@.take(part@.len() as int) =~= part@);
        }
        let ghost old_out = out@;
        out.push(cleaned);
        proof {
            assert(byte_views(out@) =~= byte_views(old_out).push(cleaned@));
        }
        i = i + 1;
    }
    out
}

/// The sum of the hashes of all steps.
pub open spec fn spec_part1(parts: Seq<Seq<u8>>) -> int
    decreases parts.len(),
{
    if parts.len() == 0 {
        0
    } else {
        spec_part1(parts.drop_last()) + spec_hash(parts.last())
    }
}

proof fn lemma_part1_take_le(parts: Seq<Seq<u8>>, i: int, j: int)
    requires
        0 <= i <= j <= parts.len(),
    ensures
        spec_part1(parts.take(i)) <= spec_part1(parts.take(j)),
    decreases j - i,
{
    if i < j {
        lemma_part1_take_le(parts, i, j - 1);
        assert(parts.take(j).drop_last() =~= parts.take(j - 1));
    } else {
        assert(parts.take(i) =~= parts.take(j));
    }
}

pub fn part1(input: &Vec<Vec<u8>>) -> (r: Option<usize>)
    ensures
        match r {
            Some(v) => v == spec_part1(byte_views(input@)),
            None => spec_part1(byte_views(input@)) > usize::MAX,
        },
{
    let ghost pv = byte_views(input@);
    let mut acc: usize = 0;
    let mut i: usize = 0;
    while i < input.len()
        invariant
            0 <= i <= input@.len(),
            pv == byte_views(input@),
            acc == spec_part1(pv.take(i as int)),
        decreases input@.len() - i,
    {
        proof {
            assert(pv.take(i + 1).drop_last() =~= pv.take(i as int));
            assert(pv.take(i + 1).last() == input@[i as int]@);
        }
        let h = hash(&input[i]);
        match acc.checked_add(h) {
            Some(x) => {
                acc = x;
            },
            None => {
                proof {
                    lemma_part1_take_le(pv, i + 1, pv.len() as int);
                    assert(pv.take(pv.len() as int) =~= pv);
                }
                return None;
            },
        }
        i = i + 1;
    }
    proof {
        assert(pv.take(pv.len() as int) =~= pv);
    }
    Some(acc)
}

/// A step decoded: the lens label, and `None` for a removal or the focal
/// length for an insertion. A malformed step decodes to `None` overall.
pub open spec fn spec_op(p: Seq<u8>) -> Option<(Seq<u8>, Option<usize>)> {
    if p.len() >= 2 && p.last() == 45 && all_alpha(p.drop_last()) {
        Some((p.drop_last(), None))
    } else {
        let k = first_index_of(p, 61);
        if 1 <= k < p.len() && all_alpha(p.take(k)) {
            match spec_parse_u64(p.skip(k + 1)) {
                Some(v) => if v <= usize::MAX {
                    Some((p.take(k), Some(v as usize)))
                } else {
                    None
                },
                None => None,
            }
        } else {
            None
        }
    }
}

pub open spec fn lens_views(s: Seq<(Vec<u8>, usize)>) -> Seq<(Seq<u8>, usize)> {
    Seq::new(s.len(), |i: int| (s[i].0@, s[i].1))
}

pub open spec fn boxes_views(b: Seq<Vec<(Vec<u8>, usize)>>) -> Seq<Seq<(Seq<u8>, usize)>> {
    Seq::new(b.len(), |i: int| lens_views(b[i]@))
}

pub open spec fn has_label(b: Seq<(Seq<u8>, usize)>, label: Seq<u8>) -> bool {
    exists|j: int| 0 <= j < b.len() && b[j].0 == label
}

/// Every slot holding the label gets the new focal length; a label not yet
/// present goes to the back of the box.
pub open spec fn set_lens(b: Seq<(Seq<u8>, usize)>, label: Seq<u8>, fl: usize) -> Seq<
    (Seq<u8>, usize),
> {
    if has_label(b, label) {
        Seq::new(b.len(), |j: int| if b[j].0 == label {
            (label, fl)
        } else {
            b[j]
        })
    } else {
        b.push((label, fl))
    }
}

pub open spec fn remove_lens(b: Seq<(Seq<u8>, usize)>, label: Seq<u8>) -> Seq<(Seq<u8>, usize)> {
    b.filter(|sl: (Seq<u8>, usize)| sl.0 != label)
}

pub open spec fn init_boxes() -> Seq<Seq<(Seq<u8>, usize)>> {
    Seq::new(256, |i: int| Seq::<(Seq<u8>, usize)>::empty())
}

pub open spec fn apply_step(boxes: Seq<Seq<(Seq<u8>, usize)>>, p: Seq<u8>) -> Option<
    Seq<Seq<(Seq<u8>, usize)>>,
> {
    match spec_op(p) {
        Some((label, act)) => {
            let h = spec_hash(label);
            match act {
                None => Some(boxes.update(h, remove_lens(boxes[h], label))),
                Some(fl) => Some(boxes.update(h, set_lens(boxes[h], label, fl))),
            }
        },
        None => None,
    }
}

/// The boxes after running every step in order, or `None` on a bad step.
pub open spec fn spec_run(parts: Seq<Seq<u8>>) -> Option<Seq<Seq<(Seq<u8>, usize)>>>
    decreases parts.len(),
{
    if parts.len() == 0 {
        Some(init_boxes())
    } else {
        match spec_run(parts.drop_last()) {
            Some(b) => apply_step(b, parts.last()),
            None => None,
        }
    }
}

/// The focusing power of one box: (box number + 1) * slot number * focal length.
pub open spec fn box_power(b: Seq<(Seq<u8>, usize)>, i: int) -> int
    decreases b.len(),
{
    if b.len() == 0 {
        0
    } else {
        box_power(b.drop_last(), i) + (i + 1) * b.len() * b.last().1
    }
}

pub open spec fn total_power(boxes: Seq<Seq<(Seq<u8>, usize)>>, n: int) -> int
    decreases n,
{
    if n <= 0 {
        0
    } else {
        total_power(boxes, n - 1) + box_power(boxes[n - 1], n - 1)
    }
}

proof fn lemma_box_power_take_le(b: Seq<(Seq<u8>, usize)>, i: int, j1: int, j2: int)
    requires
        0 <= j1 <= j2 <= b.len(),
        i >= 0,
    ensures
        box_power(b.take(j1), i) <= box_power(b.take(j2), i),
    decreases j2 - j1,
{
    if j1 < j2 {
        lemma_box_power_take_le(b, i, j1, j2 - 1);
        assert(b.take(j2).drop_last() =~= b.take(j2 - 1));
        assert((i + 1) * b.take(j2).len() * b.take(j2).last().1 >= 0) by (nonlinear_arith)
            requires
                i >= 0,
                b.take(j2).len() > 0,
                b.take(j2).last().1 >= 0,
        ;
    } else {
        assert(b.take(j1) =~= b.take(j2));
    }
}

proof fn lemma_box_power_nonneg(b: Seq<(Seq<u8>, usize)>, i: int)
    requires
        i >= 0,
    ensures
        box_power(b, i) >= 0,
{
    assert(b.take(b.len() as int) =~= b);
    lemma_box_power_take_le(b, i, 0, b.len() as int);
    assert(b.take(0) =~= Seq::<(Seq<u8>, usize)>::empty());
}

proof fn lemma_total_power_le(boxes: Seq<Seq<(Seq<u8>, usize)>>, n1: int, n2: int)
    requires
        0 <= n1 <= n2 <= boxes.len(),
    ensures
        total_power(boxes, n1) <= total_power(boxes, n2),
    decreases n2 - n1,
{
    if n1 < n2 {
        lemma_total_power_le(boxes, n1, n2 - 1);
        lemma_box_power_nonneg(boxes[n2 - 1], n2 - 1);
    }
}

/// Decode one step as the model does.
fn decode_op(p: &Vec<u8>) -> (r: Option<(Vec<u8>, Option<usize>)>)
    ensures
        match r {
            Some((label, act)) => spec_op(p@) == Some((label@, act)),
            None => spec_op(p@) is None,
        },
{
    if p.len() >= 2 && p[p.len() - 1] == 45 {
        let label = copy_range(p, 0, p.len() - 1);
        proof {
            assert(label@ =~= p@.drop_last());
        }
        if check_all_alpha(&label) {
            return Some((label, None));
        } else {
            return None;
        }
    }
    // scan for the first '='
    let mut k: usize = 0;
    while k < p.len() && p[k] != 61
        invariant
            0 <= k <= p@.len(),
            forall|j: int| 0 <= j < k ==> p@[j] != 61,
        decreases p@.len() - k,
    {
        k = k + 1;
    }
    proof {
        if k < p@.len() {
            lemma_first_index_of_exact(p@, 61, k as int);
        } else {
            lemma_first_index_of_none(p@, 61);
        }
    }
    if k >= p.len() || k == 0 {
        return None;
    }
    let label = copy_range(p, 0, k);
    assert(label@ == p@.take(k as int));
    if !check_all_alpha(&label) {
        return None;
    }
    let digits = copy_range(p, k + 1, p.len());
    proof {
        assert(digits@ =~= p@.skip(k + 1));
    }
    match parse_u64(digits.as_slice()) {
        Some(v) => {
            if v <= usize::MAX as u64 {
                Some((label, Some(v as usize)))
            } else {
                None
            }
        },
        None => None,
    }
}

/// Run all steps, then sum the focusing powers of every lens.
pub fn part2(input: &Vec<Vec<u8>>) -> (r: Option<usize>)
    ensures
        match r {
            Some(v) => {
                &&& spec_run(byte_views(input@)) is Some
                &&& v == total_power(spec_run(byte_views(input@)).unwrap(), 256)
            },
            None => spec_run(byte_views(input@)) is None || total_power(
                spec_run(byte_views(input@)).unwrap(),
                256,
            ) > usize::MAX,
        },
{
    let ghost pv = byte_views(input@);
    let mut boxes: Vec<Vec<(Vec<u8>, usize)>> = Vec::new();
    let mut bi: usize = 0;
    while bi < 256
        invariant
            0 <= bi <= 256,
            boxes@.len() == bi,
            forall|j: int| 0 <= j < bi ==> boxes@[j]@.len() == 0,
        decreases 256 - bi,
    {
        boxes.push(Vec::new());
        bi = bi + 1;
    }
    proof {
        assert(forall|j: int|
            0 <= j < 256 ==> #[trigger] boxes_views(boxes@)[j] =~= init_boxes()[j]);
        assert(boxes_views(boxes@) =~= init_boxes());
    }
    let mut i: usize = 0;
    while i < input.len()
        invariant
            0 <= i <= input@.len(),
            pv == byte_views(input@),
            boxes@.len() == 256,
            spec_run(pv.take(i as int)) == Some(boxes_views(boxes@)),
        decreases input@.len() - i,
    {
        proof {
            assert(pv.take(i + 1).drop_last() =~= pv.take(i as int));
            assert(pv.take(i + 1).last() == input@[i as int]@);
        }
        let op = decode_op(&input[i]);
        match op {
            None => {
                proof {
                    lemma_run_prefix_none(pv, i + 1);
                }
                return None;
            },
            Some((label, act)) => {
                let h = hash(&label);
                let ghost old_boxes = boxes_views(boxes@);
                match act {
                    None => {
                        // removal: keep every lens with a different label
                        let mut nb: Vec<(Vec<u8>, usize)> = Vec::new();
                        let mut j: usize = 0;
                        proof {
                            reveal(Seq::filter);
                            assert(lens_views(boxes@[h as int]@).take(0) =~= Seq::<
                                (Seq<u8>, usize),
                            >::empty());
                            assert(lens_views(nb@) =~= Seq::<(Seq<u8>, usize)>::empty());
                        }
                        let ghost ob = lens_views(boxes@[h as int]@);
                        while j < boxes[h].len()
                            invariant
                                0 <= j <= boxes@[h as int]@.len(),
                                0 <= h < boxes@.len(),
                                ob == lens_views(boxes@[h as int]@),
                                lens_views(nb@) == ob.take(j as int).filter(
                                    |sl: (Seq<u8>, usize)| sl.0 != label@,
                                ),
                            decreases boxes@[h as int]@.len() - j,
                        {
                            proof {
                                reveal(Seq::filter);
                                assert(ob.take(j + 1).drop_last() =~= ob.take(j as int));
                                assert(ob.take(j + 1).last() == ob[j as int]);
                            }
                            let keep = !bytes_eq(&boxes[h][j].0, &label);
                            if keep {
                                let ghost old_nb = lens_views(nb@);
                                let sl_label = boxes[h][j].0.clone();
                                let sl_focal = boxes[h][j].1;
                                nb.push((sl_label, sl_focal));
                                proof {
                                    assert(lens_views(nb@) =~= old_nb.push(ob[j as int]));
                                }
                            }
                            j = j + 1;
                        }
                        proof {
                            assert(ob.take(ob.len() as int) =~= ob);
                        }
                        boxes.set(h, nb);
                        proof {
                            assert(boxes_views(boxes@) =~= old_boxes.update(
                                h as int,
                                remove_lens(old_boxes[h as int], label@),
                            ));
                        }
                    },
                    Some(fl) => {
                        let mut nb: Vec<(Vec<u8>, usize)> = Vec::new();
                        let mut j: usize = 0;
                        let mut found: bool = false;
                        let ghost ob = lens_views(boxes@[h as int]@);
                        proof {
                            assert(lens_views(nb@) =~= Seq::<(Seq<u8>, usize)>::empty());
                        }
                        while j < boxes[h].len()
                            invariant
                                0 <= j <= boxes@[h as int]@.len(),
                                0 <= h < boxes@.len(),
                                ob == lens_views(boxes@[h as int]@),
                                found == has_label(ob.take(j as int), label@),
                                lens_views(nb@).len() == j,
                                forall|x: int|
                                    0 <= x < j ==> #[trigger] lens_views(nb@)[x] == (
                                    if ob[x].0 == label@ {
                                        (label@, fl)
                                    } else {
                                        ob[x]
                                    }),
                            decreases boxes@[h as int]@.len() - j,
                        {
                            let is_hit = bytes_eq(&boxes[h][j].0, &label);
                            let ghost old_nb = lens_views(nb@);
                            if is_hit {
                                let lb = label.clone();
                                nb.push((lb, fl));
                                found = true;
                                proof {
                                    assert(lens_views(nb@) =~= old_nb.push((label@, fl)));
                                    assert(ob.take(j + 1)[j as int].0 == label@);
                                    assert(has_label(ob.take(j + 1), label@));
                                }
                            } else {
                                let sl_label = boxes[h][j].0.clone();
                                let sl_focal = boxes[h][j].1;
                                nb.push((sl_label, sl_focal));
                                proof {
                                    assert(lens_views(nb@) =~= old_nb.push(ob[j as int]));
                                    assert(ob.take(j + 1) =~= ob.take(j as int).push(
                                        ob[j as int],
                                    ));
                                    assert(has_label(ob.take(j + 1), label@) == has_label(
                                        ob.take(j as int),
                                        label@,
                                    )) by {
                                        if has_label(ob.take(j as int), label@) {
                                            let w = choose|w: int|
                                                0 <= w < j && (#[trigger] ob.take(
                                                j as int,
                                                )[w]).0 == label@;
                                            assert(ob.take(j + 1)[w].0 == label@);
                                        }
                                        if has_label(ob.take(j + 1), label@) {
                                            let w = choose|w: int|
                                                0 <= w < j + 1 && (#[trigger] ob.take(
                                                j + 1,
                                                )[w]).0 == label@;
                                            assert(w < j);
                                            assert(ob.take(j as int)[w].0 == label@);
                                        }
                                    }
                                }
                            }
                            j = j + 1;
                        }
                        proof {
                            assert(ob.take(ob.len() as int) =~= ob);
                        }
                        if !found {
                            let ghost old_nb = lens_views(nb@);
                            let lb = label.clone();
                            nb.push((lb, fl));
                            proof {
                                assert(lens_views(nb@) =~= old_nb.push((label@, fl)));
                            }
                        }
                        boxes.set(h, nb);
                        proof {
                            assert(lens_views(boxes@[h as int]@) =~= set_lens(
                                ob,
                                label@,
                                fl,
                            ));
                            assert(boxes_views(boxes@) =~= old_boxes.update(
                                h as int,
                                set_lens(old_boxes[h as int], label@, fl),
                            ));
                        }
                    },
                }
            },
        }
        i = i + 1;
    }
    proof {
        assert(pv.take(pv.len() as int) =~= pv);
    }
    // focusing power
    let ghost fboxes = boxes_views(boxes@);
    let mut acc: usize = 0;
    let mut b: usize = 0;
    while b < 256
        invariant
            0 <= b <= 256,
            boxes@.len() == 256,
            pv == byte_views(input@),
            fboxes == boxes_views(boxes@),
            spec_run(pv) == Some(fboxes),
            acc == total_power(fboxes, b as int),
        decreases 256 - b,
    {
        let ghost obx = lens_views(boxes@[b as int]@);
        let mut j: usize = 0;
        let mut bacc: usize = 0;
        while j < boxes[b].len()
            invariant
                0 <= j <= boxes@[b as int]@.len(),
                0 <= b < 256,
                boxes@.len() == 256,
                pv == byte_views(input@),
                fboxes == boxes_views(boxes@),
                spec_run(pv) == Some(fboxes),
                obx == lens_views(boxes@[b as int]@),
                acc == total_power(fboxes, b as int),
                bacc == box_power(obx.take(j as int), b as int),
            decreases boxes@[b as int]@.len() - j,
        {
            proof {
                assert(obx.take(j + 1).drop_last() =~= obx.take(j as int));
                assert(obx.take(j + 1).last() == obx[j as int]);
            }
            let fl = boxes[b][j].1;
            let ghost term = (b + 1) * (j + 1) * (obx[j as int].1 as int);
            proof {
                assert(fboxes[b as int] == obx);
            }
            let t1 = match (b + 1).checked_mul(fl) {
                Some(x) => x,
                None => {
                    proof {
                        assert(term >= (b + 1) * fl) by (nonlinear_arith)
                            requires
                                term == (b + 1) * (j + 1) * fl,
                                b >= 0,
                                j >= 0,
                                fl >= 0,
                        ;
                        lemma_power_overflow(fboxes, b as int, j as int, acc as int, bacc as int);
                    }
                    return None;
                },
            };
            let t2 = match t1.checked_mul(j + 1) {
                Some(x) => x,
                None => {
                    proof {
                        assert(term == ((b + 1) * fl) * (j + 1)) by (nonlinear_arith)
                            requires
                                term == (b + 1) * (j + 1) * fl,
                        ;
                        lemma_power_overflow(fboxes, b as int, j as int, acc as int, bacc as int);
                    }
                    return None;
                },
            };
            proof {
                assert(t2 == term) by (nonlinear_arith)
                    requires
                        t2 == ((b + 1) * fl) * (j + 1),
                        term == (b + 1) * (j + 1) * fl,
                ;
            }
            match bacc.checked_add(t2) {
                Some(x) => {
                    bacc = x;
                },
                None => {
                    proof {
                        lemma_power_overflow(fboxes, b as int, j as int, acc as int, bacc as int);
                    }
                    return None;
                },
            }
            j = j + 1;
        }
        proof {
            assert(obx.take(obx.len() as int) =~= obx);
        }
        match acc.checked_add(bacc) {
            Some(x) => {
                acc = x;
            },
            None => {
                proof {
                    assert(fboxes[b as int] == obx);
                    lemma_power_overflow(
                        fboxes,
                        b as int,
                        obx.len() as int,
                        acc as int,
                        bacc as int,
                    );
                }
                return None;
            },
        }
        b = b + 1;
    }
    Some(acc)
}

/// A bad step anywhere makes the whole run fail.
proof fn lemma_run_prefix_none(parts: Seq<Seq<u8>>, i: int)
    requires
        0 <= i <= parts.len(),
        spec_run(parts.take(i)) is None,
    ensures
        spec_run(parts) is None,
    decreases parts.len() - i,
{
    if i < parts.len() {
        assert(parts.take(i + 1).drop_last() =~= parts.take(i));
        lemma_run_prefix_none(parts, i + 1);
    } else {
        assert(parts.take(i) =~= parts);
    }
}

/// If the partial power already exceeds the machine range, so does the total.
proof fn lemma_power_overflow(boxes: Seq<Seq<(Seq<u8>, usize)>>, b: int, j: int, acc: int, bacc: int)
    requires
        boxes.len() == 256,
        0 <= b < 256,
        0 <= j <= boxes[b].len(),
        acc == total_power(boxes, b),
        bacc == box_power(boxes[b].take(j), b),
        acc + bacc + (if j < boxes[b].len() {
            (b + 1) * (j + 1) * boxes[b][j].1
        } else {
            0
        }) > usize::MAX,
    ensures
        total_power(boxes, 256) > usize::MAX,
{
    let bx = boxes[b];
    if j < bx.len() {
        assert(bx.take(j + 1).drop_last() =~= bx.take(j));
        assert(bx.take(j + 1).last() == bx[j]);
        assert(bx.take(j + 1).len() == j + 1);
        assert(box_power(bx.take(j + 1), b) == bacc + (b + 1) * (j + 1) * bx[j].1);
        lemma_box_power_take_le(bx, b, j + 1, bx.len() as int);
    } else {
        lemma_box_power_take_le(bx, b, j, bx.len() as int);
    }
    assert(bx.take(bx.len() as int) =~= bx);
    assert(box_power(bx, b) >= bacc + (if j < bx.len() {
        (b + 1) * (j + 1) * bx[j].1
    } else {
        0
    }));
    assert(total_power(boxes, b + 1) >= acc + box_power(bx, b));
    lemma_total_power_le(boxes, b + 1, 256);
}

} // verus!
