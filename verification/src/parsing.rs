//! Byte-level text primitives shared by the daily solvers: digit runs,
//! separator splitting and line splitting, each with an exact model.
use vstd::prelude::*;

verus! {

pub open spec fn is_digit(b: u8) -> bool {
    48 <= b <= 57
}

pub open spec fn all_digits(s: Seq<u8>) -> bool {
    forall|i: int| 0 <= i < s.len() ==> is_digit(#[trigger] s[i])
}

/// The value of a run of decimal digits, most significant first.
pub open spec fn digits_value(s: Seq<u8>) -> int
    decreases s.len(),
{
    if s.len() == 0 {
        0
    } else {
        digits_value(s.drop_last()) * 10 + (s.last() - 48)
    }
}

pub proof fn lemma_digits_value_nonneg(s: Seq<u8>)
    requires
        all_digits(s),
    ensures
        digits_value(s) >= 0,
    decreases s.len(),
{
    if s.len() > 0 {
        assert(all_digits(s.drop_last()));
        lemma_digits_value_nonneg(s.drop_last());
    }
}

/// Extending a digit run on the right can only increase its value.
pub proof fn lemma_digits_value_take_le(s: Seq<u8>, i: int, j: int)
    requires
        all_digits(s),
        0 <= i <= j <= s.len(),
    ensures
        digits_value(s.take(i)) <= digits_value(s.take(j)),
    decreases j - i,
{
    if i < j {
        lemma_digits_value_take_le(s, i, j - 1);
        let t = s.take(j);
        assert(t.drop_last() =~= s.take(j - 1));
        assert(all_digits(s.take(j - 1)));
        lemma_digits_value_nonneg(s.take(j - 1));
    } else {
        assert(s.take(i) =~= s.take(j));
    }
}

/// A parsed unsigned number: a non-empty all-digit run whose value fits.
pub open spec fn spec_parse_u64(s: Seq<u8>) -> Option<u64> {
    if s.len() > 0 && all_digits(s) && digits_value(s) <= u64::MAX {
        Some(digits_value(s) as u64)
    } else {
        None
    }
}

pub fn parse_u64(s: &[u8]) -> (r: Option<u64>)
    ensures
        r == spec_parse_u64(s@),
{
    if s.len() == 0 {
        return None;
    }
    let mut acc: u64 = 0;
    let mut i: usize = 0;
    while i < s.len()
        invariant
            0 <= i <= s@.len(),
            all_digits(s@.take(i as int)),
            acc == digits_value(s@.take(i as int)),
        decreases s@.len() - i,
    {
        let b = s[i];
        if b < 48 || b > 57 {
            assert(!is_digit(s@[i as int]));
            return None;
        }
        let d = (b - 48) as u64;
        proof {
            assert(s@.take(i + 1).drop_last() =~= s@.take(i as int));
        }
        let step = match acc.checked_mul(10) {
            Some(x) => x.checked_add(d),
            None => None,
        };
        match step {
            Some(y) => {
                acc = y;
            },
            None => {
                proof {
                    if all_digits(s@) {
                        assert(digits_value(s@.take(i + 1)) > u64::MAX);
                        lemma_digits_value_take_le(s@, i + 1, s@.len() as int);
                        assert(s@.take(s@.len() as int) =~= s@);
                    }
                }
                return None;
            },
        }
        i = i + 1;
    }
    proof {
        assert(s@.take(s@.len() as int) =~= s@);
    }
    Some(acc)
}

/// Index of the first occurrence of `sep`, or -1 when there is none.
pub open spec fn first_index_of(s: Seq<u8>, sep: u8) -> int
    decreases s.len(),
{
    if s.len() == 0 {
        -1
    } else if s[0] == sep {
        0
    } else {
        let r = first_index_of(s.skip(1), sep);
        if r == -1 {
            -1
        } else {
            r + 1
        }
    }
}

pub proof fn lemma_first_index_of_props(s: Seq<u8>, sep: u8)
    ensures
        first_index_of(s, sep) == -1 ==> forall|j: int| 0 <= j < s.len() ==> s[j] != sep,
        first_index_of(s, sep) != -1 ==> {
            let k = first_index_of(s, sep);
            &&& 0 <= k < s.len()
            &&& s[k] == sep
            &&& forall|j: int| 0 <= j < k ==> s[j] != sep
        },
    decreases s.len(),
{
    if s.len() > 0 && s[0] != sep {
        let t = s.skip(1);
        lemma_first_index_of_props(t, sep);
        assert(forall|j: int| 1 <= j < s.len() ==> #[trigger] s[j] == t[j - 1]);
        if first_index_of(t, sep) == -1 {
            assert(forall|j: int| 0 <= j < s.len() ==> s[j] != sep);
        } else {
            let k = first_index_of(t, sep);
            assert(s[k + 1] == t[k]);
            assert(forall|j: int| 0 <= j < k + 1 ==> s[j] != sep);
        }
    }
}

/// The first index where `sep` occurs, computed from one clean prefix.
pub proof fn lemma_first_index_of_exact(s: Seq<u8>, sep: u8, k: int)
    requires
        0 <= k < s.len(),
        s[k] == sep,
        forall|j: int| 0 <= j < k ==> s[j] != sep,
    ensures
        first_index_of(s, sep) == k,
    decreases s.len(),
{
    if s[0] != sep {
        lemma_first_index_of_exact(s.skip(1), sep, k - 1);
    }
}

pub proof fn lemma_first_index_of_none(s: Seq<u8>, sep: u8)
    requires
        forall|j: int| 0 <= j < s.len() ==> s[j] != sep,
    ensures
        first_index_of(s, sep) == -1,
    decreases s.len(),
{
    if s.len() > 0 {
        lemma_first_index_of_none(s.skip(1), sep);
    }
}

/// The byte sequences held by a list of byte vectors.
pub open spec fn byte_views(v: Seq<Vec<u8>>) -> Seq<Seq<u8>> {
    Seq::new(v.len(), |i: int| v[i]@)
}

/// Splitting on a separator byte; an input without the separator is one part.
pub open spec fn spec_split(s: Seq<u8>, sep: u8) -> Seq<Seq<u8>>
    decreases s.len(),
{
    let k = first_index_of(s, sep);
    if !(0 <= k < s.len()) {
        seq![s]
    } else {
        seq![s.take(k)] + spec_split(s.skip(k + 1), sep)
    }
}

pub fn split_on(s: &[u8], sep: u8) -> (r: Vec<Vec<u8>>)
    ensures
        byte_views(r@) == spec_split(s@, sep),
{
    let ghost whole: Seq<u8> = s@;
    let mut parts: Vec<Vec<u8>> = Vec::new();
    let mut cur: Vec<u8> = Vec::new();
    let mut st: usize = 0;
    let mut i: usize = 0;
    proof {
        assert(s@.skip(0) =~= s@);
        assert(byte_views(parts@) + spec_split(s@, sep) =~= spec_split(s@, sep));
    }
    while i < s.len()
        invariant
            0 <= st <= i <= s@.len(),
            s@ == whole,
            cur@ == s@.subrange(st as int, i as int),
            forall|j: int| st <= j < i ==> s@[j] != sep,
            spec_split(whole, sep) == byte_views(parts@) + spec_split(
                s@.skip(st as int),
                sep,
            ),
        decreases s@.len() - i,
    {
        let b = s[i];
        if b == sep {
            proof {
                let rest = s@.skip(st as int);
                assert(rest[i - st] == sep);
                assert(forall|j: int| 0 <= j < i - st ==> rest[j] != sep);
                lemma_first_index_of_exact(rest, sep, i - st);
                assert(rest.take(i - st) =~= s@.subrange(st as int, i as int));
                assert(rest.skip(i - st + 1) =~= s@.skip(i + 1));
                assert(byte_views(parts@.push(cur)) =~= byte_views(parts@).push(cur@));
                assert(byte_views(parts@).push(cur@) + spec_split(s@.skip(i + 1), sep)
                    =~= byte_views(parts@) + spec_split(s@.skip(st as int), sep));
            }
            parts.push(cur);
            cur = Vec::new();
            st = i + 1;
            proof {
                assert(cur@ =~= s@.subrange(st as int, (i + 1) as int));
            }
        } else {
            cur.push(b);
            proof {
                assert(cur@ =~= s@.subrange(st as int, (i + 1) as int));
            }
        }
        i = i + 1;
    }
    proof {
        let rest = s@.skip(st as int);
        assert(forall|j: int| 0 <= j < rest.len() ==> rest[j] != sep);
        lemma_first_index_of_none(rest, sep);
        assert(spec_split(rest, sep) == seq![rest]);
        assert(cur@ =~= rest);
        assert(byte_views(parts@.push(cur)) =~= byte_views(parts@).push(cur@));
        assert(byte_views(parts@).push(rest) =~= byte_views(parts@) + seq![rest]);
    }
    parts.push(cur);
    parts
}

/// A trailing separator contributes one empty part at the end.
pub proof fn lemma_split_trailing_sep(s: Seq<u8>, sep: u8)
    requires
        s.len() > 0,
        s.last() == sep,
    ensures
        spec_split(s, sep) == spec_split(s.drop_last(), sep).push(Seq::<u8>::empty()),
    decreases s.len(),
{
    lemma_first_index_of_props(s, sep);
    let k = first_index_of(s, sep);
    assert(k != -1);
    if k == s.len() - 1 {
        assert(forall|j: int| 0 <= j < k ==> #[trigger] s.drop_last()[j] == s[j]);
        lemma_first_index_of_none(s.drop_last(), sep);
        assert(spec_split(s.drop_last(), sep) == seq![s.drop_last()]);
        assert(s.take(k) =~= s.drop_last());
        assert(s.skip(k + 1) =~= Seq::<u8>::empty());
        assert(spec_split(Seq::<u8>::empty(), sep) == seq![Seq::<u8>::empty()]);
        assert(spec_split(s, sep) == seq![s.take(k)] + seq![Seq::<u8>::empty()]);
        assert(seq![s.drop_last()] + seq![Seq::<u8>::empty()] =~= seq![s.drop_last()].push(
        Seq::<u8>::empty()));
    } else {
        let t = s.skip(k + 1);
        assert(t.last() == sep);
        lemma_split_trailing_sep(t, sep);
        lemma_first_index_of_exact(s.drop_last(), sep, k);
        assert(s.drop_last().take(k) =~= s.take(k));
        assert(s.drop_last().skip(k + 1) =~= t.drop_last());
        assert(spec_split(s, sep) == seq![s.take(k)] + spec_split(t, sep));
        assert(spec_split(s.drop_last(), sep) == seq![s.take(k)] + spec_split(t.drop_last(), sep));
        assert(seq![s.take(k)] + spec_split(t.drop_last(), sep).push(Seq::<u8>::empty()) =~= (
        seq![s.take(k)] + spec_split(t.drop_last(), sep)).push(Seq::<u8>::empty()));
    }
}

/// The lines of the input: parts between newline bytes, a trailing
/// newline closing the last line rather than opening an empty one.
pub open spec fn spec_lines(s: Seq<u8>) -> Seq<Seq<u8>> {
    if s.len() == 0 {
        Seq::empty()
    } else if s.last() == 10 {
        spec_split(s.drop_last(), 10)
    } else {
        spec_split(s, 10)
    }
}

pub fn split_lines(s: &[u8]) -> (r: Vec<Vec<u8>>)
    ensures
        byte_views(r@) == spec_lines(s@),
{
    if s.len() == 0 {
        let r: Vec<Vec<u8>> = Vec::new();
        proof {
            assert(byte_views(r@) =~= spec_lines(s@));
        }
        return r;
    }
    let mut parts = split_on(s, 10);
    if s[s.len() - 1] == 10 {
        let ghost oldp = parts@;
        proof {
            lemma_split_trailing_sep(s@, 10);
        }
        let _ = parts.pop();
        proof {
            let l = oldp.len() as int;
            assert(byte_views(oldp) == spec_split(s@, 10));
            assert(byte_views(oldp).len() == l);
            assert(spec_split(s@, 10).len() == spec_split(s@.drop_last(), 10).len() + 1);
            assert(l > 0);
            assert(parts@ == oldp.subrange(0, l - 1));
            assert(forall|j: int| 0 <= j < l - 1 ==> #[trigger] parts@[j] == oldp[j]);
            assert(forall|j: int|
                0 <= j < l - 1 ==> #[trigger] byte_views(parts@)[j] == byte_views(oldp)[j]);
            assert(byte_views(parts@) =~= spec_split(s@.drop_last(), 10));
        }
    }
    parts
}

/// The non-empty parts between separator bytes.
pub open spec fn spec_tokens(s: Seq<u8>, sep: u8) -> Seq<Seq<u8>> {
    spec_split(s, sep).filter(|p: Seq<u8>| p.len() > 0)
}

pub fn tokens(s: &[u8], sep: u8) -> (r: Vec<Vec<u8>>)
    ensures
        byte_views(r@) == spec_tokens(s@, sep),
{
    let parts = split_on(s, sep);
    let ghost pv = byte_views(parts@);
    let mut out: Vec<Vec<u8>> = Vec::new();
    let mut i: usize = 0;
    proof {
        reveal(Seq::filter);
        assert(pv.take(0) =~= Seq::<Seq<u8>>::empty());
        assert(byte_views(out@) =~= pv.take(0).filter(|p: Seq<u8>| p.len() > 0));
    }
    while i < parts.len()
        invariant
            0 <= i <= parts@.len(),
            pv == byte_views(parts@),
            byte_views(out@) == pv.take(i as int).filter(|p: Seq<u8>| p.len() > 0),
        decreases parts@.len() - i,
    {
        proof {
            reveal(Seq::filter);
            assert(pv.take(i + 1).drop_last() =~= pv.take(i as int));
            assert(pv.take(i + 1).last() == parts@[i as int]@);
        }
        if parts[i].len() > 0 {
            let ghost old_out = out@;
            let p = parts[i].clone();
            assert(p@ == parts@[i as int]@);
            out.push(p);
            proof {
                assert(byte_views(out@) =~= byte_views(old_out).push(parts@[i as int]@));
            }
        }
        i = i + 1;
    }
    proof {
        assert(pv.take(pv.len() as int) =~= pv);
    }
    out
}

/// Every part read as a number; `None` as soon as one part is no number.
pub open spec fn spec_parse_u64_all(parts: Seq<Seq<u8>>) -> Option<Seq<u64>>
    decreases parts.len(),
{
    if parts.len() == 0 {
        Some(Seq::empty())
    } else {
        match spec_parse_u64_all(parts.drop_last()) {
            Some(front) => match spec_parse_u64(parts.last()) {
                Some(v) => Some(front.push(v)),
                None => None,
            },
            None => None,
        }
    }
}

pub fn parse_u64_all(parts: &Vec<Vec<u8>>) -> (r: Option<Vec<u64>>)
    ensures
        match r {
            Some(v) => Some(v@) == spec_parse_u64_all(byte_views(parts@)),
            None => spec_parse_u64_all(byte_views(parts@)) is None,
        },
{
    let ghost pv = byte_views(parts@);
    let mut out: Vec<u64> = Vec::new();
    let mut i: usize = 0;
    while i < parts.len()
        invariant
            0 <= i <= parts@.len(),
            pv == byte_views(parts@),
            Some(out@) == spec_parse_u64_all(pv.take(i as int)),
        decreases parts@.len() - i,
    {
        proof {
            assert(pv.take(i + 1).drop_last() =~= pv.take(i as int));
            assert(pv.take(i + 1).last() == parts@[i as int]@);
        }
        match parse_u64(parts[i].as_slice()) {
            Some(v) => {
                out.push(v);
            },
            None => {
                proof {
                    lemma_parse_u64_all_prefix_none(pv, i + 1);
                }
                return None;
            },
        }
        i = i + 1;
    }
    proof {
        assert(pv.take(pv.len() as int) =~= pv);
    }
    Some(out)
}

/// The line sequences held by a list of line-vectors.
pub open spec fn group_views(v: Seq<Vec<Vec<u8>>>) -> Seq<Seq<Seq<u8>>> {
    Seq::new(v.len(), |i: int| byte_views(v[i]@))
}

/// Index of the first empty line, or -1 when there is none.
pub open spec fn first_empty_index(ls: Seq<Seq<u8>>) -> int
    decreases ls.len(),
{
    if ls.len() == 0 {
        -1
    } else if ls[0].len() == 0 {
        0
    } else {
        let r = first_empty_index(ls.skip(1));
        if r == -1 {
            -1
        } else {
            r + 1
        }
    }
}

proof fn lemma_first_empty_index_exact(ls: Seq<Seq<u8>>, k: int)
    requires
        0 <= k < ls.len(),
        ls[k].len() == 0,
        forall|j: int| 0 <= j < k ==> ls[j].len() != 0,
    ensures
        first_empty_index(ls) == k,
    decreases ls.len(),
{
    if ls[0].len() != 0 {
        lemma_first_empty_index_exact(ls.skip(1), k - 1);
    }
}

proof fn lemma_first_empty_index_none(ls: Seq<Seq<u8>>)
    requires
        forall|j: int| 0 <= j < ls.len() ==> ls[j].len() != 0,
    ensures
        first_empty_index(ls) == -1,
    decreases ls.len(),
{
    if ls.len() > 0 {
        lemma_first_empty_index_none(ls.skip(1));
    }
}

/// Blocks of lines between empty lines.
pub open spec fn spec_groups(ls: Seq<Seq<u8>>) -> Seq<Seq<Seq<u8>>>
    decreases ls.len(),
{
    let k = first_empty_index(ls);
    if !(0 <= k < ls.len()) {
        seq![ls]
    } else {
        seq![ls.take(k)] + spec_groups(ls.skip(k + 1))
    }
}

pub fn group_lines(lines: &Vec<Vec<u8>>) -> (r: Vec<Vec<Vec<u8>>>)
    ensures
        group_views(r@) == spec_groups(byte_views(lines@)),
{
    let ghost whole: Seq<Seq<u8>> = byte_views(lines@);
    let mut groups: Vec<Vec<Vec<u8>>> = Vec::new();
    let mut cur: Vec<Vec<u8>> = Vec::new();
    let mut st: usize = 0;
    let mut i: usize = 0;
    proof {
        assert(whole.skip(0) =~= whole);
        assert(byte_views(cur@) =~= whole.subrange(0, 0));
        assert(group_views(groups@) + spec_groups(whole) =~= spec_groups(whole));
    }
    while i < lines.len()
        invariant
            0 <= st <= i <= whole.len(),
            whole == byte_views(lines@),
            byte_views(cur@) == whole.subrange(st as int, i as int),
            forall|j: int| st <= j < i ==> whole[j].len() != 0,
            spec_groups(whole) == group_views(groups@) + spec_groups(whole.skip(st as int)),
        decreases whole.len() - i,
    {
        if lines[i].len() == 0 {
            proof {
                let rest = whole.skip(st as int);
                assert(rest[i - st].len() == 0);
                assert(forall|j: int| 0 <= j < i - st ==> rest[j].len() != 0);
                lemma_first_empty_index_exact(rest, i - st);
                assert(rest.take(i - st) =~= whole.subrange(st as int, i as int));
                assert(rest.skip(i - st + 1) =~= whole.skip(i + 1));
                assert(group_views(groups@.push(cur)) =~= group_views(groups@).push(
                byte_views(cur@)));
                assert(group_views(groups@).push(byte_views(cur@)) + spec_groups(
                whole.skip(i + 1)) =~= group_views(groups@) + spec_groups(
                whole.skip(st as int)));
            }
            groups.push(cur);
            cur = Vec::new();
            st = i + 1;
            proof {
                assert(byte_views(cur@) =~= whole.subrange(st as int, (i + 1) as int));
            }
        } else {
            let ghost old_cur = byte_views(cur@);
            let line = lines[i].clone();
            cur.push(line);
            proof {
                assert(byte_views(cur@) =~= old_cur.push(whole[i as int]));
                assert(byte_views(cur@) =~= whole.subrange(st as int, (i + 1) as int));
            }
        }
        i = i + 1;
    }
    proof {
        let rest = whole.skip(st as int);
        assert(forall|j: int| 0 <= j < rest.len() ==> rest[j].len() != 0);
        lemma_first_empty_index_none(rest);
        assert(spec_groups(rest) == seq![rest]);
        assert(byte_views(cur@) =~= rest);
        assert(group_views(groups@.push(cur)) =~= group_views(groups@).push(rest));
        assert(group_views(groups@).push(rest) =~= group_views(groups@) + seq![rest]);
    }
    groups.push(cur);
    groups
}

pub open spec fn is_alpha(b: u8) -> bool {
    (65 <= b <= 90) || (97 <= b <= 122)
}

pub open spec fn all_alpha(s: Seq<u8>) -> bool {
    forall|i: int| 0 <= i < s.len() ==> is_alpha(#[trigger] s[i])
}

pub fn check_all_alpha(s: &Vec<u8>) -> (r: bool)
    ensures
        r == all_alpha(s@),
{
    let mut i: usize = 0;
    while i < s.len()
        invariant
            0 <= i <= s@.len(),
            forall|j: int| 0 <= j < i ==> is_alpha(#[trigger] s@[j]),
        decreases s@.len() - i,
    {
        let b = s[i];
        if b < 65 || (b > 90 && b < 97) || b > 122 {
            assert(!is_alpha(s@[i as int]));
            return false;
        }
        i = i + 1;
    }
    true
}

pub fn bytes_eq(a: &Vec<u8>, b: &Vec<u8>) -> (r: bool)
    ensures
        r == (a@ == b@),
{
    if a.len() != b.len() {
        return false;
    }
    let mut i: usize = 0;
    while i < a.len()
        invariant
            0 <= i <= a@.len(),
            a@.len() == b@.len(),
            forall|j: int| 0 <= j < i ==> a@[j] == b@[j],
        decreases a@.len() - i,
    {
        if a[i] != b[i] {
            return false;
        }
        i = i + 1;
    }
    proof {
        assert(a@ =~= b@);
    }
    true
}

/// The bytes of `s` from `from` (inclusive) to `to` (exclusive), copied out.
pub fn copy_range(s: &Vec<u8>, from: usize, to: usize) -> (r: Vec<u8>)
    requires
        0 <= from <= to <= s@.len(),
    ensures
        r@ == s@.subrange(from as int, to as int),
{
    let mut out: Vec<u8> = Vec::new();
    let mut i: usize = from;
    proof {
        assert(out@ =~= s@.subrange(from as int, from as int));
    }
    while i < to
        invariant
            from <= i <= to <= s@.len(),
            out@ == s@.subrange(from as int, i as int),
        decreases to - i,
    {
        out.push(s[i]);
        proof {
            assert(out@ =~= s@.subrange(from as int, (i + 1) as int));
        }
        i = i + 1;
    }
    out
}

/// A failing prefix makes the whole list fail.
proof fn lemma_parse_u64_all_prefix_none(parts: Seq<Seq<u8>>, i: int)
    requires
        0 <= i <= parts.len(),
        spec_parse_u64_all(parts.take(i)) is None,
    ensures
        spec_parse_u64_all(parts) is None,
    decreases parts.len() - i,
{
    if i < parts.len() {
        assert(parts.take(i + 1).drop_last() =~= parts.take(i));
        lemma_parse_u64_all_prefix_none(parts, i + 1);
    } else {
        assert(parts.take(i) =~= parts);
    }
}

} // verus!
