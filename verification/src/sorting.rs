//! A stable insertion sort of (key, payload) pairs under the
//! lexicographic order of the keys, with the sorted result stated as a
//! recursive insertion at the model level.
use vstd::prelude::*;

verus! {

/// Lexicographic comparison of two keys from position `i` on: negative,
/// zero or positive as the first is smaller, equal or greater. A key that
/// runs out first counts as smaller.
pub open spec fn lex_cmp_from(a: Seq<u64>, b: Seq<u64>, i: int) -> int
    decreases a.len() - i,
{
    if i < 0 {
        0
    } else if i >= a.len() && i >= b.len() {
        0
    } else if i >= a.len() {
        -1
    } else if i >= b.len() {
        1
    } else if a[i] < b[i] {
        -1
    } else if a[i] > b[i] {
        1
    } else {
        lex_cmp_from(a, b, i + 1)
    }
}

pub open spec fn lex_cmp(a: Seq<u64>, b: Seq<u64>) -> int {
    lex_cmp_from(a, b, 0)
}

pub fn lex_cmp_exec(a: &Vec<u64>, b: &Vec<u64>) -> (r: i8)
    ensures
        r == lex_cmp(a@, b@),
{
    let mut i: usize = 0;
    while i < a.len() || i < b.len()
        invariant
            0 <= i,
            i <= a@.len() || i <= b@.len(),
            lex_cmp(a@, b@) == lex_cmp_from(a@, b@, i as int),
        decreases (if a@.len() >= b@.len() {
            a@.len()
        } else {
            b@.len()
        }) - i,
    {
        if i >= a.len() {
            return -1;
        }
        if i >= b.len() {
            return 1;
        }
        if a[i] < b[i] {
            return -1;
        }
        if a[i] > b[i] {
            return 1;
        }
        i = i + 1;
    }
    0
}

pub open spec fn pair_views(v: Seq<(Vec<u64>, usize)>) -> Seq<(Seq<u64>, usize)> {
    Seq::new(v.len(), |i: int| (v[i].0@, v[i].1))
}

/// Insert behind every entry whose key is not greater: equal keys keep
/// their old order.
pub open spec fn spec_insert(s: Seq<(Seq<u64>, usize)>, x: (Seq<u64>, usize)) -> Seq<
    (Seq<u64>, usize),
>
    decreases s.len(),
{
    if s.len() == 0 || lex_cmp(s.last().0, x.0) <= 0 {
        s.push(x)
    } else {
        spec_insert(s.drop_last(), x).push(s.last())
    }
}

/// The list sorted by stable insertion, first entry first.
pub open spec fn spec_sort(s: Seq<(Seq<u64>, usize)>) -> Seq<(Seq<u64>, usize)>
    decreases s.len(),
{
    if s.len() == 0 {
        Seq::empty()
    } else {
        spec_insert(spec_sort(s.drop_last()), s.last())
    }
}

/// Inserting before a tail of strictly greater keys splices the entry in.
proof fn lemma_insert_at(s: Seq<(Seq<u64>, usize)>, x: (Seq<u64>, usize), q: int)
    requires
        0 <= q <= s.len(),
        forall|j: int| q <= j < s.len() ==> lex_cmp((#[trigger] s[j]).0, x.0) > 0,
        q > 0 ==> lex_cmp(s[q - 1].0, x.0) <= 0,
    ensures
        spec_insert(s, x) == s.take(q) + seq![x] + s.skip(q),
    decreases s.len(),
{
    if s.len() == 0 || lex_cmp(s.last().0, x.0) <= 0 {
        assert(q == s.len());
        assert(s.take(q) =~= s);
        assert(s.skip(q) =~= Seq::<(Seq<u64>, usize)>::empty());
        assert(s.push(x) =~= s.take(q) + seq![x] + s.skip(q));
    } else {
        assert(q < s.len());
        lemma_insert_at(s.drop_last(), x, q);
        assert(s.drop_last().take(q) =~= s.take(q));
        assert(spec_insert(s.drop_last(), x).push(s.last()) =~= s.take(q) + seq![x] + s.skip(
        q)) by {
            assert(s.drop_last().skip(q).push(s.last()) =~= s.skip(q));
        }
    }
}

pub proof fn lemma_insert_len(s: Seq<(Seq<u64>, usize)>, x: (Seq<u64>, usize))
    ensures
        spec_insert(s, x).len() == s.len() + 1,
    decreases s.len(),
{
    if !(s.len() == 0 || lex_cmp(s.last().0, x.0) <= 0) {
        lemma_insert_len(s.drop_last(), x);
    }
}

pub proof fn lemma_sort_len(s: Seq<(Seq<u64>, usize)>)
    ensures
        spec_sort(s).len() == s.len(),
    decreases s.len(),
{
    if s.len() > 0 {
        lemma_sort_len(s.drop_last());
        lemma_insert_len(spec_sort(s.drop_last()), s.last());
    }
}

pub proof fn lemma_insert_payload_bound(s: Seq<(Seq<u64>, usize)>, x: (Seq<u64>, usize), n: int)
    requires
        forall|i: int| 0 <= i < s.len() ==> (#[trigger] s[i]).1 < n,
        x.1 < n,
    ensures
        forall|i: int| 0 <= i < spec_insert(s, x).len() ==> (#[trigger] spec_insert(s, x)[i]).1
            < n,
    decreases s.len(),
{
    if !(s.len() == 0 || lex_cmp(s.last().0, x.0) <= 0) {
        assert(forall|i: int|
            0 <= i < s.drop_last().len() ==> (#[trigger] s.drop_last()[i]).1 < n);
        lemma_insert_payload_bound(s.drop_last(), x, n);
        lemma_insert_len(s.drop_last(), x);
        let r = spec_insert(s, x);
        let sub = spec_insert(s.drop_last(), x);
        assert(r == sub.push(s.last()));
        assert forall|i: int| 0 <= i < r.len() implies (#[trigger] r[i]).1 < n by {
            if i < sub.len() {
                assert(r[i] == sub[i]);
            } else {
                assert(r[i] == s.last());
            }
        }
    }
}

/// Every payload of the sorted list was a payload of the input.
pub proof fn lemma_sort_payload_bound(s: Seq<(Seq<u64>, usize)>, n: int)
    requires
        forall|i: int| 0 <= i < s.len() ==> (#[trigger] s[i]).1 < n,
    ensures
        forall|i: int| 0 <= i < spec_sort(s).len() ==> (#[trigger] spec_sort(s)[i]).1 < n,
    decreases s.len(),
{
    if s.len() > 0 {
        assert(forall|i: int|
            0 <= i < s.drop_last().len() ==> (#[trigger] s.drop_last()[i]).1 < n);
        lemma_sort_payload_bound(s.drop_last(), n);
        lemma_insert_payload_bound(spec_sort(s.drop_last()), s.last(), n);
    }
}

/// Sort the pairs, keeping the given order among equal keys.
pub fn sort_pairs(v: &Vec<(Vec<u64>, usize)>) -> (r: Vec<(Vec<u64>, usize)>)
    ensures
        pair_views(r@) == spec_sort(pair_views(v@)),
{
    let ghost pv = pair_views(v@);
    let mut out: Vec<(Vec<u64>, usize)> = Vec::new();
    let mut i: usize = 0;
    proof {
        assert(pv.take(0) =~= Seq::<(Seq<u64>, usize)>::empty());
        assert(pair_views(out@) =~= spec_sort(pv.take(0)));
    }
    while i < v.len()
        invariant
            0 <= i <= v@.len(),
            pv == pair_views(v@),
            pair_views(out@) == spec_sort(pv.take(i as int)),
        decreases v@.len() - i,
    {
        let key = v[i].0.clone();
        let payload = v[i].1;
        let ghost x = (v@[i as int].0@, v@[i as int].1);
        let ghost sorted = pair_views(out@);
        let mut q: usize = out.len();
        while q > 0 && lex_cmp_exec(&out[q - 1].0, &key) > 0
            invariant
                0 <= q <= out@.len(),
                sorted == pair_views(out@),
                x.0 == key@,
                forall|j: int|
                    q <= j < sorted.len() ==> lex_cmp((#[trigger] sorted[j]).0, x.0) > 0,
            decreases q,
        {
            q = q - 1;
        }
        proof {
            lemma_insert_at(sorted, x, q as int);
            assert(pv.take(i + 1).drop_last() =~= pv.take(i as int));
            assert(pv.take(i + 1).last() == x);
        }
        out.insert(q, (key, payload));
        proof {
            assert(pair_views(out@) =~= sorted.take(q as int) + seq![x] + sorted.skip(
            q as int));
        }
        i = i + 1;
    }
    proof {
        assert(pv.take(pv.len() as int) =~= pv);
    }
    out
}

} // verus!
