//! Splitting text into lines, whitespace-separated tokens, and
//! blank-line-separated groups, with joining back; plus the conversions
//! between `&str`/`String` and the `Vec<char>` form the parsers work on.
use vstd::prelude::*;
use crate::text::{find_sub_s, lemma_find_sub_s, match_at, find_sub, subrange_vec, append_vec, is_ws, ws, trim_s, trim_start_s, trim_end_s, lemma_trim_end_prefix};

verus! {

/// Splits on every occurrence of `c`; the separators themselves are dropped.
/// There is always at least one (possibly empty) piece.
pub open spec fn split_char_s(s: Seq<char>, c: char) -> Seq<Seq<char>>
    decreases s.len(),
    via split_char_s_decreases
{
    match find_sub_s(s, seq![c]) {
        Some(i) => seq![s.take(i)] + split_char_s(s.skip(i + 1), c),
        None => seq![s],
    }
}

#[via_fn]
proof fn split_char_s_decreases(s: Seq<char>, c: char) {
    lemma_find_sub_s(s, seq![c]);
}

pub open spec fn strip_cr(l: Seq<char>) -> Seq<char> {
    if l.len() > 0 && l.last() == '\r' {
        l.drop_last()
    } else {
        l
    }
}

/// What `str::lines` yields: pieces split on `'\n'`, a final empty piece
/// dropped, and one trailing `'\r'` removed from each line.
pub open spec fn lines_s(s: Seq<char>) -> Seq<Seq<char>> {
    if s.len() == 0 {
        seq![]
    } else {
        let ps = split_char_s(s, '\n');
        let kept = if s.last() == '\n' {
            ps.drop_last()
        } else {
            ps
        };
        kept.map_values(|l: Seq<char>| strip_cr(l))
    }
}

proof fn lemma_split_char_len(s: Seq<char>, c: char)
    ensures
        split_char_s(s, c).len() >= 1,
{
    lemma_find_sub_s(s, seq![c]);
}

/// The exec mirror of `split_char_s`.
pub fn split_char(v: &Vec<char>, c: char) -> (r: Vec<Vec<char>>)
    ensures
        r@.map_values(|l: Vec<char>| l@) == split_char_s(v@, c),
{
    let sep: Vec<char> = vec![c];
    assert(sep@ =~= seq![c]);
    let mut out: Vec<Vec<char>> = Vec::new();
    let mut rest: Vec<char> = subrange_vec(v, 0, v.len());
    assert(rest@ =~= v@);
    loop
        invariant
            sep@ == seq![c],
            out@.map_values(|l: Vec<char>| l@) + split_char_s(rest@, c) =~= split_char_s(v@, c),
        decreases rest@.len(),
    {
        proof {
            lemma_find_sub_s(rest@, seq![c]);
        }
        match find_sub(&rest, &sep) {
            Some(i) => {
                assert(match_at(rest@, seq![c], i as int));
                let ghost prev = rest@;
                let n = rest.len();
                let head = subrange_vec(&rest, 0, i);
                out.push(head);
                rest = subrange_vec(&rest, i + 1, n);
                proof {
                    assert(prev.take(i as int) =~= prev.subrange(0, i as int));
                    assert(prev.skip(i + 1) =~= rest@);
                    assert(out@.map_values(|l: Vec<char>| l@) + split_char_s(rest@, c)
                        =~= split_char_s(v@, c));
                }
            },
            None => {
                out.push(rest);
                assert(out@.map_values(|l: Vec<char>| l@) =~= split_char_s(v@, c));
                return out;
            },
        }
    }
}

/// The exec mirror of `lines_s`.
pub fn split_lines(v: &Vec<char>) -> (r: Vec<Vec<char>>)
    ensures
        r@.map_values(|l: Vec<char>| l@) == lines_s(v@),
{
    if v.len() == 0 {
        let r: Vec<Vec<char>> = Vec::new();
        assert(r@.map_values(|l: Vec<char>| l@) =~= lines_s(v@));
        return r;
    }
    let mut ps = split_char(v, '\n');
    proof {
        lemma_split_char_len(v@, '\n');
    }
    if v[v.len() - 1] == '\n' {
        assert(v@.last() == '\n');
        ps.pop();
        assert(ps@.map_values(|l: Vec<char>| l@) =~= split_char_s(v@, '\n').drop_last());
    }
    let mut out: Vec<Vec<char>> = Vec::new();
    let ghost kept = ps@.map_values(|l: Vec<char>| l@);
    let mut i: usize = 0;
    while i < ps.len()
        invariant
            0 <= i <= ps@.len(),
            kept == ps@.map_values(|l: Vec<char>| l@),
            out@.map_values(|l: Vec<char>| l@) =~= kept.map_values(|l: Seq<char>| strip_cr(l))
                .take(i as int),
        decreases ps@.len() - i,
    {
        let line = &ps[i];
        let n = line.len();
        let stripped = if n > 0 && line[n - 1] == '\r' {
            subrange_vec(line, 0, n - 1)
        } else {
            subrange_vec(line, 0, n)
        };
        proof {
            assert(line@.subrange(0, line@.len() as int) =~= line@);
            if line@.len() > 0 && line@.last() == '\r' {
                assert(line@.subrange(0, line@.len() - 1) =~= strip_cr(line@));
            }
            assert(stripped@ =~= strip_cr(kept[i as int]));
        }
        out.push(stripped);
        assert(out@.map_values(|l: Vec<char>| l@) =~= kept.map_values(
            |l: Seq<char>| strip_cr(l),
        ).take(i + 1 as int));
        i += 1;
    }
    assert(out@.map_values(|l: Vec<char>| l@) =~= lines_s(v@));
    out
}

/// Joins pieces with a separator, as `[T]::join` does.
pub open spec fn join_s(ps: Seq<Seq<char>>, sep: Seq<char>) -> Seq<char>
    decreases ps.len(),
{
    if ps.len() == 0 {
        Seq::empty()
    } else if ps.len() == 1 {
        ps[0]
    } else {
        ps[0] + sep + join_s(ps.drop_first(), sep)
    }
}

pub fn join(ps: &Vec<Vec<char>>, sep: &Vec<char>) -> (r: Vec<char>)
    ensures
        r@ == join_s(ps@.map_values(|l: Vec<char>| l@), sep@),
{
    let ghost model = ps@.map_values(|l: Vec<char>| l@);
    let mut r: Vec<char> = Vec::new();
    let mut i: usize = 0;
    while i < ps.len()
        invariant
            0 <= i <= ps@.len(),
            model == ps@.map_values(|l: Vec<char>| l@),
            i == 0 ==> r@.len() == 0,
            i >= 1 ==> r@ =~= join_s(model.take(i as int), sep@),
        decreases ps@.len() - i,
    {
        if i > 0 {
            append_vec(&mut r, sep);
            append_vec(&mut r, &ps[i]);
            proof {
                lemma_join_take(model, sep@, i as int);
                assert(r@ =~= join_s(model.take(i + 1 as int), sep@));
            }
        } else {
            append_vec(&mut r, &ps[i]);
            proof {
                assert(model.take(1) =~= seq![model[0]]);
                assert(r@ =~= join_s(model.take(1), sep@));
            }
        }
        i += 1;
    }
    proof {
        if ps@.len() > 0 {
            assert(model.take(model.len() as int) =~= model);
        }
        assert(r@ =~= join_s(model, sep@));
    }
    r
}

/// Extending a join by one piece appends a separator and that piece.
proof fn lemma_join_take(ps: Seq<Seq<char>>, sep: Seq<char>, i: int)
    requires
        1 <= i < ps.len(),
    ensures
        join_s(ps.take(i + 1), sep) =~= join_s(ps.take(i), sep) + sep + ps[i],
    decreases i,
{
    let d = ps.drop_first();
    if i == 1 {
        assert(ps.take(2).drop_first() =~= seq![ps[1]]);
        assert(ps.take(1) =~= seq![ps[0]]);
        assert(ps.take(2)[0] == ps[0]);
        assert(join_s(seq![ps[1]], sep) == ps[1]);
        assert(join_s(ps.take(2), sep) =~= ps[0] + sep + ps[1]);
        assert(join_s(ps.take(1), sep) == ps[0]);
    } else {
        lemma_join_take(d, sep, i - 1);
        assert(d.take(i) =~= ps.take(i + 1).drop_first());
        assert(d.take(i - 1) =~= ps.take(i).drop_first());
        assert(join_s(ps.take(i + 1), sep) =~= ps[0] + sep + join_s(d.take(i), sep));
        assert(join_s(ps.take(i), sep) =~= ps[0] + sep + join_s(d.take(i - 1), sep));
        assert(d[i - 1] == ps[i]);
    }
}


/// Length of the leading run of whitespace (`in_ws`) or non-whitespace
/// (`!in_ws`) characters.
pub open spec fn run_len_s(s: Seq<char>, in_ws: bool) -> int
    decreases s.len(),
{
    if s.len() == 0 || is_ws(s[0]) != in_ws {
        0
    } else {
        1 + run_len_s(s.drop_first(), in_ws)
    }
}

pub proof fn lemma_run_len_bounds(s: Seq<char>, in_ws: bool)
    ensures
        0 <= run_len_s(s, in_ws) <= s.len(),
        forall|j: int| 0 <= j < run_len_s(s, in_ws) ==> is_ws(s[j]) == in_ws,
        run_len_s(s, in_ws) < s.len() ==> is_ws(s[run_len_s(s, in_ws)]) != in_ws,
    decreases s.len(),
{
    if s.len() > 0 && is_ws(s[0]) == in_ws {
        lemma_run_len_bounds(s.drop_first(), in_ws);
        assert forall|j: int| 0 <= j < run_len_s(s, in_ws) implies is_ws(s[j]) == in_ws by {
            if j > 0 {
                assert(is_ws(s.drop_first()[j - 1]) == in_ws);
            }
        }
    }
}

/// What `str::split_whitespace` yields: the maximal runs of
/// non-whitespace characters, in order.
pub open spec fn tokens_s(s: Seq<char>) -> Seq<Seq<char>>
    decreases s.len(),
    via tokens_s_decreases
{
    if s.len() == 0 {
        seq![]
    } else if is_ws(s[0]) {
        tokens_s(s.skip(run_len_s(s, true)))
    } else {
        seq![s.take(run_len_s(s, false))] + tokens_s(s.skip(run_len_s(s, false)))
    }
}

#[via_fn]
proof fn tokens_s_decreases(s: Seq<char>) {
    lemma_run_len_bounds(s, true);
    lemma_run_len_bounds(s, false);
}

/// The exec mirror of `run_len_s`, counting from position `i`.
fn run_end(v: &Vec<char>, i: usize, in_ws: bool) -> (r: usize)
    requires
        i <= v@.len(),
    ensures
        i <= r <= v@.len(),
        r - i == run_len_s(v@.skip(i as int), in_ws),
{
    let n = v.len();
    let mut j: usize = i;
    while j < n && ws(v[j]) == in_ws
        invariant
            i <= j <= n == v@.len(),
            forall|k: int| i <= k < j ==> is_ws(v@[k]) == in_ws,
        decreases n - j,
    {
        j += 1;
    }
    proof {
        lemma_run_at(v@, i as int, j as int, in_ws);
    }
    j
}

/// A maximal matching run from `i` to `j` has `run_len_s` exactly `j - i`.
proof fn lemma_run_at(s: Seq<char>, i: int, j: int, in_ws: bool)
    requires
        0 <= i <= j <= s.len(),
        forall|k: int| i <= k < j ==> is_ws(s[k]) == in_ws,
        j == s.len() || is_ws(s[j]) != in_ws,
    ensures
        run_len_s(s.skip(i), in_ws) == j - i,
    decreases j - i,
{
    if i == j {
    } else {
        lemma_run_at(s, i + 1, j, in_ws);
        assert(s.skip(i).drop_first() =~= s.skip(i + 1));
    }
}

/// The exec mirror of `tokens_s`.
pub fn tokens(v: &Vec<char>) -> (r: Vec<Vec<char>>)
    ensures
        r@.map_values(|t: Vec<char>| t@) == tokens_s(v@),
{
    let n = v.len();
    let mut out: Vec<Vec<char>> = Vec::new();
    let mut i: usize = 0;
    assert(v@.skip(0) =~= v@);
    while i < n
        invariant
            0 <= i <= n == v@.len(),
            out@.map_values(|t: Vec<char>| t@) + tokens_s(v@.skip(i as int)) =~= tokens_s(v@),
        decreases n - i,
    {
        let ghost at = v@.skip(i as int);
        proof {
            assert(at[0] == v@[i as int]);
            lemma_run_len_bounds(at.drop_first(), true);
            lemma_run_len_bounds(at.drop_first(), false);
        }
        if ws(v[i]) {
            let j = run_end(v, i, true);
            assert(run_len_s(at, true) >= 1);
            assert(j > i);
            proof {
                assert(at[0] == v@[i as int]);
                assert(at.skip(run_len_s(at, true)) =~= v@.skip(j as int));
            }
            i = j;
        } else {
            let j = run_end(v, i, false);
            assert(run_len_s(at, false) >= 1);
            assert(j > i);
            let tok = subrange_vec(v, i, j);
            proof {
                assert(at[0] == v@[i as int]);
                assert(at.take(run_len_s(at, false)) =~= tok@);
                assert(at.skip(run_len_s(at, false)) =~= v@.skip(j as int));
            }
            out.push(tok);
            assert(out@.map_values(|t: Vec<char>| t@) + tokens_s(v@.skip(j as int)) =~= tokens_s(
                v@,
            ));
            i = j;
        }
    }
    proof {
        assert(v@.skip(n as int) =~= Seq::<char>::empty());
        assert(out@.map_values(|t: Vec<char>| t@) =~= tokens_s(v@));
    }
    out
}

/// Index of the first empty line.
pub open spec fn find_empty_s(ls: Seq<Seq<char>>) -> Option<int>
    decreases ls.len(),
{
    if ls.len() == 0 {
        None
    } else if ls[0].len() == 0 {
        Some(0)
    } else {
        match find_empty_s(ls.drop_first()) {
            Some(i) => Some(i + 1),
            None => None,
        }
    }
}

pub proof fn lemma_find_empty_s(ls: Seq<Seq<char>>)
    ensures
        match find_empty_s(ls) {
            Some(i) => 0 <= i < ls.len() && ls[i].len() == 0 && forall|j: int|
                0 <= j < i ==> ls[j].len() > 0,
            None => forall|j: int| 0 <= j < ls.len() ==> ls[j].len() > 0,
        },
    decreases ls.len(),
{
    if ls.len() > 0 && ls[0].len() != 0 {
        lemma_find_empty_s(ls.drop_first());
        let d = ls.drop_first();
        match find_empty_s(d) {
            Some(i) => {
                assert(ls[i + 1] == d[i]);
                assert forall|j: int| 0 <= j < i + 1 implies ls[j].len() > 0 by {
                    if j > 0 {
                        assert(d[j - 1].len() > 0);
                    }
                }
            },
            None => {
                assert forall|j: int| 0 <= j < ls.len() implies ls[j].len() > 0 by {
                    if j > 0 {
                        assert(d[j - 1].len() > 0);
                    }
                }
            },
        }
    }
}

/// What `slice::split` on emptiness yields: groups of lines separated by
/// empty lines, the separators dropped.
pub open spec fn split_empty_s(ls: Seq<Seq<char>>) -> Seq<Seq<Seq<char>>>
    decreases ls.len(),
    via split_empty_s_decreases
{
    match find_empty_s(ls) {
        Some(i) => seq![ls.take(i)] + split_empty_s(ls.skip(i + 1)),
        None => seq![ls],
    }
}

#[via_fn]
proof fn split_empty_s_decreases(ls: Seq<Seq<char>>) {
    lemma_find_empty_s(ls);
}

/// The exec mirror of `split_empty_s`.
pub fn split_empty(ls: &Vec<Vec<char>>) -> (r: Vec<Vec<Vec<char>>>)
    ensures
        r@.map_values(|g: Vec<Vec<char>>| g@.map_values(|l: Vec<char>| l@)) == split_empty_s(
            ls@.map_values(|l: Vec<char>| l@),
        ),
{
    let ghost to2 = |g: Vec<Vec<char>>| g@.map_values(|l: Vec<char>| l@);
    let mut out: Vec<Vec<Vec<char>>> = Vec::new();
    let mut group: Vec<Vec<char>> = Vec::new();
    let mut i: usize = 0;
    proof {
        let lsm = ls@.map_values(|l: Vec<char>| l@);
        assert(group@.map_values(|l: Vec<char>| l@) + lsm.skip(0) =~= lsm);
    }
    while i < ls.len()
        invariant
            0 <= i <= ls@.len(),
            forall|j: int| 0 <= j < group@.len() ==> #[trigger] group@[j]@.len() > 0,
            out@.map_values(to2) + split_empty_s(
                group@.map_values(|l: Vec<char>| l@) + ls@.map_values(|l: Vec<char>| l@).skip(
                    i as int,
                ),
            ) =~= split_empty_s(ls@.map_values(|l: Vec<char>| l@)),
        decreases ls@.len() - i,
    {
        let ghost lsm = ls@.map_values(|l: Vec<char>| l@);
        let ghost gm = group@.map_values(|l: Vec<char>| l@);
        let line = subrange_vec(&ls[i], 0, ls[i].len());
        assert(line@ =~= lsm[i as int]);
        if line.len() == 0 {
            proof {
                lemma_split_empty_step(gm, lsm.skip(i as int));
                assert(lsm.skip(i as int).drop_first() =~= lsm.skip(i + 1));
                assert(split_empty_s(gm + lsm.skip(i as int)) =~~= seq![gm] + split_empty_s(
                    lsm.skip(i + 1),
                ));
            }
            let ghost oldmap = out@.map_values(to2);
            out.push(group);
            group = Vec::new();
            proof {
                assert(out@.map_values(to2) =~~= oldmap + seq![gm]);
                assert(group@.map_values(|l: Vec<char>| l@) + lsm.skip(i + 1) =~= lsm.skip(i + 1));
                assert((oldmap + seq![gm]) + split_empty_s(lsm.skip(i + 1)) =~~= oldmap + (
                seq![gm] + split_empty_s(lsm.skip(i + 1))));
                assert(out@.map_values(to2) + split_empty_s(lsm.skip(i + 1)) =~~= split_empty_s(
                    lsm,
                ));
            }
        } else {
            group.push(line);
            proof {
                assert(group@.map_values(|l: Vec<char>| l@) + lsm.skip(i + 1) =~= gm + lsm.skip(
                    i as int,
                ));
            }
        }
        i += 1;
    }
    proof {
        let lsm = ls@.map_values(|l: Vec<char>| l@);
        let gm = group@.map_values(|l: Vec<char>| l@);
        assert(gm + lsm.skip(lsm.len() as int) =~= gm);
        lemma_split_empty_none(gm);
        assert(split_empty_s(gm) == seq![gm]);
    }
    out.push(group);
    assert(out@.map_values(to2) =~= split_empty_s(ls@.map_values(|l: Vec<char>| l@)));
    out
}

/// A group of non-empty lines followed by an empty line and a tail splits
/// into that group, then the split of the tail.
proof fn lemma_split_empty_step(g: Seq<Seq<char>>, rest: Seq<Seq<char>>)
    requires
        forall|j: int| 0 <= j < g.len() ==> g[j].len() > 0,
        rest.len() > 0,
        rest[0].len() == 0,
    ensures
        split_empty_s(g + rest) =~= seq![g] + split_empty_s(rest.drop_first()),
{
    let w = g + rest;
    lemma_find_empty_s(w);
    assert(w[g.len() as int].len() == 0);
    match find_empty_s(w) {
        Some(i) => {
            assert(i <= g.len());
            assert(i >= g.len()) by {
                if i < g.len() {
                    assert(w[i] == g[i]);
                }
            }
            assert(w.take(i) =~= g);
            assert(w.skip(i + 1) =~= rest.drop_first());
        },
        None => {
            assert(w[g.len() as int].len() > 0);
        },
    }
}

/// With no empty line, the whole run is one group.
proof fn lemma_split_empty_none(g: Seq<Seq<char>>)
    requires
        forall|j: int| 0 <= j < g.len() ==> g[j].len() > 0,
    ensures
        split_empty_s(g) == seq![g],
{
    lemma_find_empty_s(g);
    match find_empty_s(g) {
        Some(i) => {
            assert(g[i].len() > 0);
        },
        None => {},
    }
}


/// A trimmed string reads within the original, shifted by the leading
/// whitespace run.
pub proof fn lemma_trim_structure(s: Seq<char>)
    ensures
        run_len_s(s, true) + trim_s(s).len() <= s.len(),
        forall|j: int| 0 <= j < trim_s(s).len() ==> trim_s(s)[j] == s[run_len_s(s, true) + j],
{
    let w = run_len_s(s, true);
    lemma_run_len_bounds(s, true);
    crate::text::lemma_trim_start_skip_pub(s, w);
    lemma_trim_end_prefix(s.skip(w));
    assert forall|j: int| 0 <= j < trim_s(s).len() implies trim_s(s)[j] == s[w + j] by {
        assert(trim_s(s)[j] == s.skip(w)[j]);
    }
}

/// The characters of a `&str`, in order.
pub fn to_chars(s: &str) -> (r: Vec<char>)
    ensures
        r@ == s@,
{
    let n = s.unicode_len();
    let mut r: Vec<char> = Vec::new();
    let mut i: usize = 0;
    while i < n
        invariant
            0 <= i <= n == s@.len(),
            r@ =~= s@.take(i as int),
        decreases n - i,
    {
        r.push(s.get_char(i));
        assert(r@ =~= s@.take(i + 1 as int));
        i += 1;
    }
    assert(r@ =~= s@);
    r
}

/// Relies on `FromIterator for String`: collecting characters builds the
/// string of exactly those characters, in order.
#[verifier::external_body]
pub fn chars_to_string(v: &Vec<char>) -> (r: String)
    ensures
        r@ == v@,
{
    v.iter().collect()
}

} // verus!
