//! Character-sequence utilities: whitespace trimming, substring search,
//! splitting and joining. All parsing in this crate works on `Vec<char>`
//! internally; these are the verified building blocks.
use vstd::prelude::*;

verus! {

/// Whitespace, for trimming, token splitting and blank-line detection.
pub open spec fn is_ws(c: char) -> bool {
    c == ' ' || c == '\t' || c == '\n' || c == '\r' || c == '\u{b}' || c == '\u{c}'
}

pub fn ws(c: char) -> (r: bool)
    ensures
        r == is_ws(c),
{
    c == ' ' || c == '\t' || c == '\n' || c == '\r' || c == '\u{b}' || c == '\u{c}'
}

pub open spec fn trim_start_s(s: Seq<char>) -> Seq<char>
    decreases s.len(),
{
    if s.len() > 0 && is_ws(s[0]) {
        trim_start_s(s.drop_first())
    } else {
        s
    }
}

pub open spec fn trim_end_s(s: Seq<char>) -> Seq<char>
    decreases s.len(),
{
    if s.len() > 0 && is_ws(s.last()) {
        trim_end_s(s.drop_last())
    } else {
        s
    }
}

/// What `str::trim` leaves: the sequence with leading and trailing
/// whitespace removed.
pub open spec fn trim_s(s: Seq<char>) -> Seq<char> {
    trim_end_s(trim_start_s(s))
}

pub proof fn lemma_trim_start_skip_pub(s: Seq<char>, i: int)
    requires
        0 <= i <= s.len(),
        forall|j: int| 0 <= j < i ==> is_ws(s[j]),
        i == s.len() || !is_ws(s[i]),
    ensures
        trim_start_s(s) == s.skip(i),
{
    lemma_trim_start_skip(s, i);
}

proof fn lemma_trim_start_skip(s: Seq<char>, i: int)
    requires
        0 <= i <= s.len(),
        forall|j: int| 0 <= j < i ==> is_ws(s[j]),
        i == s.len() || !is_ws(s[i]),
    ensures
        trim_start_s(s) == s.skip(i),
    decreases i,
{
    if i == 0 {
        assert(s.skip(0) =~= s);
    } else {
        lemma_trim_start_skip(s.drop_first(), i - 1);
        assert(s.drop_first().skip(i - 1) =~= s.skip(i));
    }
}

proof fn lemma_trim_end_take(s: Seq<char>, i: int)
    requires
        0 <= i <= s.len(),
        forall|j: int| i <= j < s.len() ==> is_ws(s[j]),
        i == 0 || !is_ws(s[i - 1]),
    ensures
        trim_end_s(s) == s.take(i),
    decreases s.len() - i,
{
    if i == s.len() {
        assert(s.take(i) =~= s);
    } else {
        lemma_trim_end_take(s.drop_last(), i);
        assert(s.drop_last().take(i) =~= s.take(i));
    }
}

pub fn trim(v: &Vec<char>) -> (r: Vec<char>)
    ensures
        r@ == trim_s(v@),
{
    let n = v.len();
    let mut start: usize = 0;
    while start < n && ws(v[start])
        invariant
            start <= n,
            forall|j: int| 0 <= j < start ==> is_ws(v@[j]),
        decreases n - start,
    {
        start += 1;
    }
    let mut end: usize = n;
    while end > start && ws(v[end - 1])
        invariant
            start <= end <= n,
            forall|j: int| end <= j < n ==> is_ws(v@[j]),
        decreases end,
    {
        end -= 1;
    }
    let mut r: Vec<char> = Vec::new();
    let mut i: usize = start;
    while i < end
        invariant
            start <= i <= end <= n,
            r@ =~= v@.subrange(start as int, i as int),
        decreases end - i,
    {
        r.push(v[i]);
        assert(r@ =~= v@.subrange(start as int, i + 1 as int));
        i += 1;
    }
    proof {
        lemma_trim_start_skip(v@, start as int);
        if end == start {
            // everything from start on is whitespace, and before start too
            lemma_trim_end_take(v@.skip(start as int), 0);
        } else {
            lemma_trim_end_take(v@.skip(start as int), end - start);
        }
        assert(v@.skip(start as int).take(end - start) =~= v@.subrange(
            start as int,
            end as int,
        ));
        assert(r@ =~= v@.subrange(start as int, end as int));
    }
    r
}

/// Trimming at the end leaves a prefix.
pub proof fn lemma_trim_end_prefix(s: Seq<char>)
    ensures
        trim_end_s(s).len() <= s.len(),
        trim_end_s(s) == s.take(trim_end_s(s).len() as int),
    decreases s.len(),
{
    if s.len() > 0 && is_ws(s.last()) {
        lemma_trim_end_prefix(s.drop_last());
        let k = trim_end_s(s).len() as int;
        assert(s.drop_last().take(k) =~= s.take(k));
    } else {
        assert(s.take(s.len() as int) =~= s);
    }
}

/// The pattern `p` occurs in `s` at position `i`.
pub open spec fn match_at(s: Seq<char>, p: Seq<char>, i: int) -> bool {
    0 <= i && i + p.len() <= s.len() && s.subrange(i, i + p.len()) == p
}

/// Position of the first occurrence of `p` in `s`, as `str::find` reports it.
pub open spec fn find_sub_s(s: Seq<char>, p: Seq<char>) -> Option<int>
    decreases s.len(),
{
    if match_at(s, p, 0) {
        Some(0)
    } else if s.len() == 0 {
        None
    } else {
        match find_sub_s(s.drop_first(), p) {
            Some(i) => Some(i + 1),
            None => None,
        }
    }
}

pub open spec fn contains_sub_s(s: Seq<char>, p: Seq<char>) -> bool {
    find_sub_s(s, p) is Some
}

pub open spec fn starts_with_s(s: Seq<char>, p: Seq<char>) -> bool {
    match_at(s, p, 0)
}

pub open spec fn ends_with_s(s: Seq<char>, p: Seq<char>) -> bool {
    p.len() <= s.len() && match_at(s, p, s.len() - p.len())
}

/// `find_sub_s` finds exactly the first match.
pub proof fn lemma_find_sub_s(s: Seq<char>, p: Seq<char>)
    ensures
        match find_sub_s(s, p) {
            Some(i) => match_at(s, p, i) && forall|j: int| 0 <= j < i ==> !match_at(s, p, j),
            None => forall|j: int| !match_at(s, p, j),
        },
    decreases s.len(),
{
    if match_at(s, p, 0) {
    } else if s.len() == 0 {
        assert forall|j: int| !match_at(s, p, j) by {
            if 0 <= j && j + p.len() <= s.len() {
                assert(j == 0);
            }
        }
    } else {
        lemma_find_sub_s(s.drop_first(), p);
        let t = s.drop_first();
        assert forall|j: int| 1 <= j && j + p.len() <= s.len() implies match_at(s, p, j)
            == match_at(t, p, j - 1) by {
            assert(t.subrange(j - 1, j - 1 + p.len()) =~= s.subrange(j, j + p.len()));
        }
        match find_sub_s(t, p) {
            Some(i) => {
                assert(match_at(s, p, i + 1));
                assert forall|j: int| 0 <= j < i + 1 implies !match_at(s, p, j) by {
                    if j >= 1 && j + p.len() <= s.len() {
                        assert(!match_at(t, p, j - 1));
                    }
                }
            },
            None => {
                assert forall|j: int| !match_at(s, p, j) by {
                    if j >= 1 && j + p.len() <= s.len() {
                        assert(!match_at(t, p, j - 1));
                    }
                }
            },
        }
    }
}

#[via_fn]
proof fn replace_all_s_decreases(s: Seq<char>, p: Seq<char>, to: Seq<char>) {
    lemma_find_sub_s(s, p);
}

/// Compares `v[i .. i + p.len()]` with `p`.
fn match_here(v: &Vec<char>, p: &Vec<char>, i: usize) -> (r: bool)
    requires
        i + p@.len() <= v@.len(),
    ensures
        r == match_at(v@, p@, i as int),
{
    let n = v.len();
    let mut j: usize = 0;
    while j < p.len()
        invariant
            n == v@.len(),
            0 <= j <= p@.len(),
            i + p@.len() <= v@.len(),
            forall|k: int| 0 <= k < j ==> v@[i + k] == p@[k],
        decreases p@.len() - j,
    {
        if v[i + j] != p[j] {
            assert(v@.subrange(i as int, i + p@.len()) != p@) by {
                assert(v@.subrange(i as int, i + p@.len())[j as int] != p@[j as int]);
            }
            return false;
        }
        j += 1;
    }
    assert(v@.subrange(i as int, i + p@.len()) =~= p@);
    true
}

/// First occurrence of `p` in `v`, scanning left to right.
pub fn find_sub(v: &Vec<char>, p: &Vec<char>) -> (r: Option<usize>)
    ensures
        match r {
            Some(i) => find_sub_s(v@, p@) == Some(i as int),
            None => find_sub_s(v@, p@) is None,
        },
{
    proof {
        lemma_find_sub_s(v@, p@);
    }
    if p.len() > v.len() {
        return None;
    }
    if p.len() == 0 {
        assert(v@.subrange(0, 0) =~= p@);
        return Some(0);
    }
    let mut i: usize = 0;
    while i <= v.len() - p.len()
        invariant
            0 < p@.len() <= v@.len(),
            0 <= i <= v@.len() - p@.len() + 1,
            forall|j: int| 0 <= j < i ==> !match_at(v@, p@, j),
        decreases v@.len() - i,
    {
        if match_here(v, p, i) {
            return Some(i);
        }
        i += 1;
    }
    None
}

pub fn starts_with(v: &Vec<char>, p: &Vec<char>) -> (r: bool)
    ensures
        r == starts_with_s(v@, p@),
{
    if p.len() > v.len() {
        return false;
    }
    match_here(v, p, 0)
}

pub fn ends_with(v: &Vec<char>, p: &Vec<char>) -> (r: bool)
    ensures
        r == ends_with_s(v@, p@),
{
    if p.len() > v.len() {
        return false;
    }
    match_here(v, p, v.len() - p.len())
}

pub fn contains_sub(v: &Vec<char>, p: &Vec<char>) -> (r: bool)
    ensures
        r == contains_sub_s(v@, p@),
{
    find_sub(v, p).is_some()
}

/// What `str::replacen(p, to, 1)` leaves: the first occurrence of `p`
/// replaced by `to`.
pub open spec fn replace_first_s(s: Seq<char>, p: Seq<char>, to: Seq<char>) -> Seq<char> {
    match find_sub_s(s, p) {
        Some(i) => s.take(i) + to + s.skip(i + p.len()),
        None => s,
    }
}

/// What `str::replace(p, to)` leaves: every occurrence of `p` replaced by
/// `to`, scanning left to right.
pub open spec fn replace_all_s(s: Seq<char>, p: Seq<char>, to: Seq<char>) -> Seq<char>
    decreases s.len(),
    when p.len() > 0
    via replace_all_s_decreases
{
    match find_sub_s(s, p) {
        Some(i) => s.take(i) + to + replace_all_s(s.skip(i + p.len()), p, to),
        None => s,
    }
}

pub fn subrange_vec(v: &Vec<char>, from: usize, to: usize) -> (r: Vec<char>)
    requires
        0 <= from <= to <= v@.len(),
    ensures
        r@ == v@.subrange(from as int, to as int),
{
    let mut r: Vec<char> = Vec::new();
    let mut i: usize = from;
    while i < to
        invariant
            from <= i <= to <= v@.len(),
            r@ =~= v@.subrange(from as int, i as int),
        decreases to - i,
    {
        r.push(v[i]);
        assert(r@ =~= v@.subrange(from as int, i + 1 as int));
        i += 1;
    }
    r
}

pub fn append_vec(out: &mut Vec<char>, v: &Vec<char>)
    ensures
        final(out)@ == old(out)@ + v@,
{
    let mut i: usize = 0;
    while i < v.len()
        invariant
            0 <= i <= v@.len(),
            out@ =~= old(out)@ + v@.subrange(0, i as int),
        decreases v@.len() - i,
    {
        out.push(v[i]);
        assert(out@ =~= old(out)@ + v@.subrange(0, i + 1 as int));
        i += 1;
    }
    assert(out@ =~= old(out)@ + v@);
}

pub fn replace_first(v: &Vec<char>, p: &Vec<char>, to: &Vec<char>) -> (r: Vec<char>)
    ensures
        r@ == replace_first_s(v@, p@, to@),
{
    proof {
        lemma_find_sub_s(v@, p@);
    }
    match find_sub(v, p) {
        Some(i) => {
            assert(match_at(v@, p@, i as int));
            let n = v.len();
            let mut r = subrange_vec(v, 0, i);
            append_vec(&mut r, to);
            let tail = subrange_vec(v, i + p.len(), n);
            append_vec(&mut r, &tail);
            proof {
                assert(v@.take(i as int) =~= v@.subrange(0, i as int));
                assert(v@.skip(i + p@.len()) =~= v@.subrange(i + p@.len(), v@.len() as int));
            }
            r
        },
        None => {
            let r = subrange_vec(v, 0, v.len());
            assert(r@ =~= v@);
            r
        },
    }
}

pub fn replace_all(v: &Vec<char>, p: &Vec<char>, to: &Vec<char>) -> (r: Vec<char>)
    requires
        p@.len() > 0,
    ensures
        r@ == replace_all_s(v@, p@, to@),
{
    let mut out: Vec<char> = Vec::new();
    let mut rest: Vec<char> = subrange_vec(v, 0, v.len());
    assert(rest@ =~= v@);
    loop
        invariant
            p@.len() > 0,
            out@ + replace_all_s(rest@, p@, to@) =~= replace_all_s(v@, p@, to@),
        decreases rest@.len(),
    {
        proof {
            lemma_find_sub_s(rest@, p@);
        }
        match find_sub(&rest, &p) {
            Some(i) => {
                assert(match_at(rest@, p@, i as int));
                let ghost prev = rest@;
                let n = rest.len();
                let head = subrange_vec(&rest, 0, i);
                append_vec(&mut out, &head);
                append_vec(&mut out, to);
                rest = subrange_vec(&rest, i + p.len(), n);
                proof {
                    assert(prev.take(i as int) =~= prev.subrange(0, i as int));
                    assert(prev.skip(i + p@.len()) =~= rest@);
                    assert(out@ + replace_all_s(rest@, p@, to@) =~= replace_all_s(v@, p@, to@));
                }
            },
            None => {
                append_vec(&mut out, &rest);
                assert(out@ =~= replace_all_s(v@, p@, to@));
                return out;
            },
        }
    }
}


pub fn eq_chars(a: &Vec<char>, b: &Vec<char>) -> (r: bool)
    ensures
        r == (a@ == b@),
{
    if a.len() != b.len() {
        return false;
    }
    let mut i: usize = 0;
    while i < a.len()
        invariant
            a@.len() == b@.len(),
            0 <= i <= a@.len(),
            forall|j: int| 0 <= j < i ==> a@[j] == b@[j],
        decreases a@.len() - i,
    {
        if a[i] != b[i] {
            return false;
        }
        i += 1;
    }
    assert(a@ =~= b@);
    true
}

} // verus!
