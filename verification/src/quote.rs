//! The block-quote grammar: a run of `>`-prefixed lines with an optional
//! bold title line, an optional dash-prefixed attribution line carrying up
//! to two links (author, then source), and blank-separated quote
//! paragraphs.
use vstd::prelude::*;
use crate::text::{
    eq_chars, find_sub, find_sub_s, lemma_find_sub_s, match_at, replace_all, replace_all_s,
    replace_first, replace_first_s, starts_with, starts_with_s, subrange_vec, trim, trim_s,
};
use crate::split::{
    chars_to_string, join, join_s, lines_s, split_empty, split_empty_s, split_lines, to_chars,
};
use crate::inline::{take_link_s, take_next_link, Link, LinkModel};

verus! {

/// Lines that satisfy the predicate, in order.
pub open spec fn keep_lines_s(ls: Seq<Seq<char>>, p: spec_fn(Seq<char>) -> bool) -> Seq<Seq<char>>
    decreases ls.len(),
{
    if ls.len() == 0 {
        seq![]
    } else if p(ls[0]) {
        seq![ls[0]] + keep_lines_s(ls.drop_first(), p)
    } else {
        keep_lines_s(ls.drop_first(), p)
    }
}

/// Index of the first line that satisfies the predicate.
pub open spec fn find_line_s(ls: Seq<Seq<char>>, p: spec_fn(Seq<char>) -> bool) -> Option<int>
    decreases ls.len(),
{
    if ls.len() == 0 {
        None
    } else if p(ls[0]) {
        Some(0)
    } else {
        match find_line_s(ls.drop_first(), p) {
            Some(i) => Some(i + 1),
            None => None,
        }
    }
}

pub proof fn lemma_find_line_s(ls: Seq<Seq<char>>, p: spec_fn(Seq<char>) -> bool)
    ensures
        match find_line_s(ls, p) {
            Some(i) => 0 <= i < ls.len() && p(ls[i]) && forall|j: int| 0 <= j < i ==> !p(ls[j]),
            None => forall|j: int| 0 <= j < ls.len() ==> !p(ls[j]),
        },
    decreases ls.len(),
{
    if ls.len() > 0 && !p(ls[0]) {
        lemma_find_line_s(ls.drop_first(), p);
        let d = ls.drop_first();
        match find_line_s(d, p) {
            Some(i) => {
                assert(ls[i + 1] == d[i]);
                assert forall|j: int| 0 <= j < i + 1 implies !p(ls[j]) by {
                    if j > 0 {
                        assert(!p(d[j - 1]));
                    }
                }
            },
            None => {
                assert forall|j: int| 0 <= j < ls.len() implies !p(ls[j]) by {
                    if j > 0 {
                        assert(!p(d[j - 1]));
                    }
                }
            },
        }
    }
}

/// One unfolding step of `keep_lines_s` at position `i`.
pub proof fn lemma_keep_step(ls: Seq<Seq<char>>, p: spec_fn(Seq<char>) -> bool, i: int)
    requires
        0 <= i < ls.len(),
    ensures
        p(ls[i]) ==> keep_lines_s(ls.skip(i), p) =~= seq![ls[i]] + keep_lines_s(
            ls.skip(i + 1),
            p,
        ),
        !p(ls[i]) ==> keep_lines_s(ls.skip(i), p) =~= keep_lines_s(ls.skip(i + 1), p),
{
    let t = ls.skip(i);
    assert(t[0] == ls[i]);
    assert(t.drop_first() =~= ls.skip(i + 1));
}

/// A quote block, separated into its parts.
#[derive(Debug, Clone, PartialEq, Eq)]
pub struct Quote {
    pub title: String,
    pub quote: Vec<String>,
    pub author: String,
    pub author_link: String,
    pub source: String,
    pub source_link: String,
}

/// The mathematical view of a `Quote`.
pub ghost struct QuoteModel {
    pub title: Seq<char>,
    pub quote: Seq<Seq<char>>,
    pub author: Seq<char>,
    pub author_link: Seq<char>,
    pub source: Seq<char>,
    pub source_link: Seq<char>,
}

impl View for Quote {
    type V = QuoteModel;

    open spec fn view(&self) -> QuoteModel {
        QuoteModel {
            title: self.title@,
            quote: self.quote@.map_values(|q: String| q@),
            author: self.author@,
            author_link: self.author_link@,
            source: self.source@,
            source_link: self.source_link@,
        }
    }
}

/// The trimmed lines of the trimmed block.
pub open spec fn quote_raw_lines_s(s: Seq<char>) -> Seq<Seq<char>> {
    lines_s(trim_s(s)).map_values(|l: Seq<char>| trim_s(l))
}

/// The block applies only when there is at least one line and every line
/// starts with `>`.
pub open spec fn quote_applies_s(s: Seq<char>) -> bool {
    let ls = quote_raw_lines_s(s);
    ls.len() > 0 && forall|j: int| 0 <= j < ls.len() ==> starts_with_s(#[trigger] ls[j], seq!['>'])
}

/// Each line with its `>` marker and surrounding whitespace removed.
pub open spec fn quote_stripped_lines_s(s: Seq<char>) -> Seq<Seq<char>> {
    quote_raw_lines_s(s).map_values(
        |l: Seq<char>| trim_s(replace_first_s(l, seq!['>'], Seq::<char>::empty())),
    )
}

pub open spec fn is_bold_start(l: Seq<char>) -> bool {
    starts_with_s(l, seq!['*', '*'])
}

pub open spec fn is_dash_start(l: Seq<char>) -> bool {
    starts_with_s(l, seq!['-', '-']) || starts_with_s(l, seq!['\u{2014}', '-'])
}


/// The lines left when every copy of `t` is removed.
pub open spec fn remove_equal_s(ls: Seq<Seq<char>>, t: Seq<char>) -> Seq<Seq<char>> {
    keep_lines_s(ls, |l: Seq<char>| l != t)
}

/// The first bold-wrapped line.
pub open spec fn find_bold_s(ls: Seq<Seq<char>>) -> Option<int> {
    find_line_s(ls, |l: Seq<char>| is_bold_start(l))
}

/// The first dash-prefixed line.
pub open spec fn find_dash_s(ls: Seq<Seq<char>>) -> Option<int> {
    find_line_s(ls, |l: Seq<char>| is_dash_start(l))
}

/// The lines that are neither bold-prefixed nor `--`-prefixed.
pub open spec fn body_lines_s(ls: Seq<Seq<char>>) -> Seq<Seq<char>> {
    keep_lines_s(ls, |l: Seq<char>| !is_bold_start(l) && !starts_with_s(l, seq!['-', '-']))
}

/// The joined groups whose trimmed text is non-empty.
pub open spec fn nonblank_s(ls: Seq<Seq<char>>) -> Seq<Seq<char>> {
    keep_lines_s(ls, |q: Seq<char>| trim_s(q).len() > 0)
}

/// The title line (first bold-wrapped line) and the lines left when every
/// copy of it is removed.
pub open spec fn quote_title_split_s(ls: Seq<Seq<char>>) -> (Seq<char>, Seq<Seq<char>>) {
    match find_bold_s(ls) {
        Some(ti) => {
            let t = ls[ti];
            (replace_all_s(t, seq!['*', '*'], Seq::<char>::empty()), remove_equal_s(ls, t))
        },
        None => (Seq::<char>::empty(), ls),
    }
}

/// The attribution line (first dash-prefixed line), its dash markers
/// removed, and the lines left when every copy of it is removed.
pub open spec fn quote_author_split_s(ls: Seq<Seq<char>>) -> (Seq<char>, Seq<Seq<char>>) {
    match find_dash_s(ls) {
        Some(ai) => {
            let a = ls[ai];
            (
                trim_s(
                    replace_first_s(
                        replace_first_s(a, seq!['-', '-'], Seq::<char>::empty()),
                        seq!['\u{2014}', '-'],
                        Seq::<char>::empty(),
                    ),
                ),
                remove_equal_s(ls, a),
            )
        },
        None => (Seq::<char>::empty(), ls),
    }
}

/// Up to two links read from the attribution line, left to right: the
/// first names the author, a second found later in the line names the
/// source.
pub open spec fn quote_links_s(a: Seq<char>) -> (
    Seq<char>,
    Seq<char>,
    Seq<char>,
    Seq<char>,
) {
    let (author, author_link, rem) = match take_link_s(a) {
        Some((l, k)) => (l.text, l.href, a.skip(k)),
        None => (Seq::<char>::empty(), Seq::<char>::empty(), a),
    };
    let rem2 = match find_sub_s(rem, seq!['[']) {
        Some(i) => rem.skip(i),
        None => rem,
    };
    match take_link_s(rem2) {
        Some((l, k)) => (author, author_link, l.text, l.href),
        None => (author, author_link, Seq::<char>::empty(), Seq::<char>::empty()),
    }
}

/// The quote paragraphs: the remaining lines, bold- and `--`-prefixed
/// ones dropped, grouped on blank lines, each group joined with spaces,
/// blank groups dropped.
pub open spec fn quote_paragraphs_s(ls: Seq<Seq<char>>) -> Seq<Seq<char>> {
    let joined = split_empty_s(body_lines_s(ls)).map_values(
        |g: Seq<Seq<char>>| join_s(g, seq![' ']),
    );
    nonblank_s(joined)
}

pub open spec fn is_quote_char(c: char) -> bool {
    c == '"' || c == '\'' || c == '`'
}

/// Strips one leading quote character from the first paragraph: the first
/// occurrence of the character the trimmed paragraph starts with.
pub open spec fn strip_lead_quote_s(q: Seq<Seq<char>>) -> Seq<Seq<char>> {
    if q.len() == 0 {
        q
    } else {
        let f = q[0];
        let tf = trim_s(f);
        if tf.len() > 0 && is_quote_char(tf[0]) {
            q.update(0, replace_first_s(f, seq![tf[0]], Seq::<char>::empty()))
        } else {
            q
        }
    }
}

/// Strips one trailing quote character from the last paragraph: the first
/// occurrence of the character the trimmed paragraph ends with.
pub open spec fn strip_trail_quote_s(q: Seq<Seq<char>>) -> Seq<Seq<char>> {
    if q.len() == 0 {
        q
    } else {
        let f = q.last();
        let tf = trim_s(f);
        if tf.len() > 0 && is_quote_char(tf.last()) {
            q.update(q.len() - 1, replace_first_s(f, seq![tf.last()], Seq::<char>::empty()))
        } else {
            q
        }
    }
}

/// The whole quote grammar.
pub open spec fn quote_parse_s(s: Seq<char>) -> Option<QuoteModel> {
    if quote_applies_s(s) {
        let stripped = quote_stripped_lines_s(s);
        let (title, ls1) = quote_title_split_s(stripped);
        let (author_line, ls2) = quote_author_split_s(ls1);
        let (author, author_link, source, source_link) = quote_links_s(author_line);
        let quote = strip_trail_quote_s(strip_lead_quote_s(quote_paragraphs_s(ls2)));
        Some(QuoteModel { title, quote, author, author_link, source, source_link })
    } else {
        None
    }
}


/// Keeps the lines on which the exec predicate result agrees with `p`.
/// (Specialised loops below; this is the shared proof step.)
fn keep_lines_retain(ls: &Vec<Vec<char>>, t: &Vec<char>) -> (r: Vec<Vec<char>>)
    ensures
        r@.map_values(|l: Vec<char>| l@) == remove_equal_s(ls@.map_values(|l: Vec<char>| l@), t@),
{
    let ghost model = ls@.map_values(|l: Vec<char>| l@);
    let ghost p = |l: Seq<char>| l != t@;
    let mut out: Vec<Vec<char>> = Vec::new();
    let mut i: usize = 0;
    proof {
        assert(model.skip(0) =~= model);
    }
    while i < ls.len()
        invariant
            0 <= i <= ls@.len(),
            model == ls@.map_values(|l: Vec<char>| l@),
            p == (|l: Seq<char>| l != t@),
            out@.map_values(|l: Vec<char>| l@) + keep_lines_s(model.skip(i as int), p)
                =~~= keep_lines_s(model, p),
        decreases ls@.len() - i,
    {
        proof {
            lemma_keep_step(model, p, i as int);
        }
        let line = subrange_vec(&ls[i], 0, ls[i].len());
        assert(line@ =~= model[i as int]);
        if !eq_chars(&line, t) {
            assert(p(model[i as int]));
            out.push(line);
        } else {
            assert(!p(model[i as int]));
        }
        assert(out@.map_values(|l: Vec<char>| l@) + keep_lines_s(model.skip(i + 1), p)
            =~~= keep_lines_s(model, p));
        i += 1;
    }
    proof {
        assert(model.skip(model.len() as int) =~= Seq::<Seq<char>>::empty());
        assert(out@.map_values(|l: Vec<char>| l@) =~~= keep_lines_s(model, p));
    }
    out
}

fn bold_pat() -> (r: Vec<char>)
    ensures
        r@ == seq!['*', '*'],
{
    let r: Vec<char> = vec!['*', '*'];
    assert(r@ =~= seq!['*', '*']);
    r
}

fn dash_pat() -> (r: Vec<char>)
    ensures
        r@ == seq!['-', '-'],
{
    let r: Vec<char> = vec!['-', '-'];
    assert(r@ =~= seq!['-', '-']);
    r
}

fn emdash_pat() -> (r: Vec<char>)
    ensures
        r@ == seq!['\u{2014}', '-'],
{
    let r: Vec<char> = vec!['\u{2014}', '-'];
    assert(r@ =~= seq!['\u{2014}', '-']);
    r
}

/// Keeps the lines that are neither bold-prefixed nor `--`-prefixed.
fn keep_body_lines(ls: &Vec<Vec<char>>) -> (r: Vec<Vec<char>>)
    ensures
        r@.map_values(|l: Vec<char>| l@) == body_lines_s(ls@.map_values(|l: Vec<char>| l@)),
{
    let ghost model = ls@.map_values(|l: Vec<char>| l@);
    let ghost p = |l: Seq<char>| !is_bold_start(l) && !starts_with_s(l, seq!['-', '-']);
    let bold = bold_pat();
    let dash = dash_pat();
    let mut out: Vec<Vec<char>> = Vec::new();
    let mut i: usize = 0;
    proof {
        assert(model.skip(0) =~= model);
    }
    while i < ls.len()
        invariant
            0 <= i <= ls@.len(),
            model == ls@.map_values(|l: Vec<char>| l@),
            p == (|l: Seq<char>| !is_bold_start(l) && !starts_with_s(l, seq!['-', '-'])),
            bold@ == seq!['*', '*'],
            dash@ == seq!['-', '-'],
            out@.map_values(|l: Vec<char>| l@) + keep_lines_s(model.skip(i as int), p)
                =~~= keep_lines_s(model, p),
        decreases ls@.len() - i,
    {
        proof {
            lemma_keep_step(model, p, i as int);
        }
        let line = subrange_vec(&ls[i], 0, ls[i].len());
        assert(line@ =~= model[i as int]);
        if !starts_with(&line, &bold) && !starts_with(&line, &dash) {
            assert(p(model[i as int]));
            out.push(line);
        } else {
            assert(!p(model[i as int]));
        }
        assert(out@.map_values(|l: Vec<char>| l@) + keep_lines_s(model.skip(i + 1), p)
            =~~= keep_lines_s(model, p));
        i += 1;
    }
    proof {
        assert(model.skip(model.len() as int) =~= Seq::<Seq<char>>::empty());
        assert(out@.map_values(|l: Vec<char>| l@) =~~= keep_lines_s(model, p));
    }
    out
}

/// Keeps the joined groups whose trimmed text is non-empty.
fn keep_nonblank(ls: &Vec<Vec<char>>) -> (r: Vec<Vec<char>>)
    ensures
        r@.map_values(|l: Vec<char>| l@) == nonblank_s(ls@.map_values(|l: Vec<char>| l@)),
{
    let ghost model = ls@.map_values(|l: Vec<char>| l@);
    let ghost p = |q: Seq<char>| trim_s(q).len() > 0;
    let mut out: Vec<Vec<char>> = Vec::new();
    let mut i: usize = 0;
    proof {
        assert(model.skip(0) =~= model);
    }
    while i < ls.len()
        invariant
            0 <= i <= ls@.len(),
            model == ls@.map_values(|l: Vec<char>| l@),
            p == (|q: Seq<char>| trim_s(q).len() > 0),
            out@.map_values(|l: Vec<char>| l@) + keep_lines_s(model.skip(i as int), p)
                =~~= keep_lines_s(model, p),
        decreases ls@.len() - i,
    {
        proof {
            lemma_keep_step(model, p, i as int);
        }
        let line = subrange_vec(&ls[i], 0, ls[i].len());
        assert(line@ =~= model[i as int]);
        let tl = trim(&line);
        if tl.len() > 0 {
            assert(p(model[i as int]));
            out.push(line);
        } else {
            assert(!p(model[i as int]));
        }
        assert(out@.map_values(|l: Vec<char>| l@) + keep_lines_s(model.skip(i + 1), p)
            =~~= keep_lines_s(model, p));
        i += 1;
    }
    proof {
        assert(model.skip(model.len() as int) =~= Seq::<Seq<char>>::empty());
        assert(out@.map_values(|l: Vec<char>| l@) =~~= keep_lines_s(model, p));
    }
    out
}

/// Finds the first line satisfying the bold (or dash) predicate; the two
/// callers below share this shape.
fn find_bold_line(ls: &Vec<Vec<char>>) -> (r: Option<usize>)
    ensures
        match r {
            Some(i) => find_bold_s(ls@.map_values(|l: Vec<char>| l@)) == Some(i as int) && i
                < ls@.len(),
            None => find_bold_s(ls@.map_values(|l: Vec<char>| l@)) is None,
        },
{
    let ghost model = ls@.map_values(|l: Vec<char>| l@);
    let ghost p = |l: Seq<char>| is_bold_start(l);
    proof {
        lemma_find_line_s(model, p);
    }
    let bold = bold_pat();
    let mut i: usize = 0;
    while i < ls.len()
        invariant
            0 <= i <= ls@.len(),
            model == ls@.map_values(|l: Vec<char>| l@),
            p == (|l: Seq<char>| is_bold_start(l)),
            bold@ == seq!['*', '*'],
            forall|j: int| 0 <= j < i ==> !p(model[j]),
        decreases ls@.len() - i,
    {
        if starts_with(&ls[i], &bold) {
            assert(p(model[i as int]));
            proof {
                match find_line_s(model, p) {
                    Some(fi) => {
                        if fi < i {
                            assert(!p(model[fi]));
                        }
                        if fi > i {
                            assert(!p(model[i as int]));
                        }
                    },
                    None => {
                        assert(!p(model[i as int]));
                    },
                }
            }
            return Some(i);
        }
        assert(!p(model[i as int]));
        i += 1;
    }
    proof {
        match find_line_s(model, p) {
            Some(fi) => {
                assert(!p(model[fi]));
            },
            None => {},
        }
    }
    None
}

fn find_dash_line(ls: &Vec<Vec<char>>) -> (r: Option<usize>)
    ensures
        match r {
            Some(i) => find_dash_s(ls@.map_values(|l: Vec<char>| l@)) == Some(i as int) && i
                < ls@.len(),
            None => find_dash_s(ls@.map_values(|l: Vec<char>| l@)) is None,
        },
{
    let ghost model = ls@.map_values(|l: Vec<char>| l@);
    let ghost p = |l: Seq<char>| is_dash_start(l);
    proof {
        lemma_find_line_s(model, p);
    }
    let dash = dash_pat();
    let emdash = emdash_pat();
    let mut i: usize = 0;
    while i < ls.len()
        invariant
            0 <= i <= ls@.len(),
            model == ls@.map_values(|l: Vec<char>| l@),
            p == (|l: Seq<char>| is_dash_start(l)),
            dash@ == seq!['-', '-'],
            emdash@ == seq!['\u{2014}', '-'],
            forall|j: int| 0 <= j < i ==> !p(model[j]),
        decreases ls@.len() - i,
    {
        if starts_with(&ls[i], &dash) || starts_with(&ls[i], &emdash) {
            assert(p(model[i as int]));
            proof {
                match find_line_s(model, p) {
                    Some(fi) => {
                        if fi < i {
                            assert(!p(model[fi]));
                        }
                        if fi > i {
                            assert(!p(model[i as int]));
                        }
                    },
                    None => {
                        assert(!p(model[i as int]));
                    },
                }
            }
            return Some(i);
        }
        assert(!p(model[i as int]));
        i += 1;
    }
    proof {
        match find_line_s(model, p) {
            Some(fi) => {
                assert(!p(model[fi]));
            },
            None => {},
        }
    }
    None
}


/// Removes a quote character from the first paragraph if the trimmed
/// paragraph opens with one.
fn strip_lead_quote(q: Vec<Vec<char>>) -> (r: Vec<Vec<char>>)
    ensures
        r@.map_values(|l: Vec<char>| l@) == strip_lead_quote_s(
            q@.map_values(|l: Vec<char>| l@),
        ),
{
    let ghost model = q@.map_values(|l: Vec<char>| l@);
    if q.len() == 0 {
        assert(q@.map_values(|l: Vec<char>| l@) =~= strip_lead_quote_s(model));
        return q;
    }
    let f = subrange_vec(&q[0], 0, q[0].len());
    assert(f@ =~= model[0]);
    let tf = trim(&f);
    if tf.len() > 0 && (tf[0] == '"' || tf[0] == '\'' || tf[0] == '`') {
        let pat: Vec<char> = vec![tf[0]];
        assert(pat@ =~= seq![trim_s(model[0])[0]]);
        let empty: Vec<char> = Vec::new();
        assert(empty@ =~= Seq::<char>::empty());
        let nf = replace_first(&f, &pat, &empty);
        let mut out = q;
        out.set(0, nf);
        assert(out@.map_values(|l: Vec<char>| l@) =~~= strip_lead_quote_s(model));
        out
    } else {
        assert(q@.map_values(|l: Vec<char>| l@) =~= strip_lead_quote_s(model));
        q
    }
}

/// Removes a quote character from the last paragraph if the trimmed
/// paragraph closes with one; `replacen` semantics remove its first
/// occurrence.
fn strip_trail_quote(q: Vec<Vec<char>>) -> (r: Vec<Vec<char>>)
    ensures
        r@.map_values(|l: Vec<char>| l@) == strip_trail_quote_s(
            q@.map_values(|l: Vec<char>| l@),
        ),
{
    let ghost model = q@.map_values(|l: Vec<char>| l@);
    if q.len() == 0 {
        assert(q@.map_values(|l: Vec<char>| l@) =~= strip_trail_quote_s(model));
        return q;
    }
    let last = q.len() - 1;
    let f = subrange_vec(&q[last], 0, q[last].len());
    assert(f@ =~= model.last());
    let tf = trim(&f);
    if tf.len() > 0 && (tf[tf.len() - 1] == '"' || tf[tf.len() - 1] == '\''
        || tf[tf.len() - 1] == '`') {
        let pat: Vec<char> = vec![tf[tf.len() - 1]];
        assert(pat@ =~= seq![trim_s(model.last()).last()]);
        let empty: Vec<char> = Vec::new();
        assert(empty@ =~= Seq::<char>::empty());
        let nf = replace_first(&f, &pat, &empty);
        let mut out = q;
        out.set(last, nf);
        assert(out@.map_values(|l: Vec<char>| l@) =~~= strip_trail_quote_s(model));
        out
    } else {
        assert(q@.map_values(|l: Vec<char>| l@) =~= strip_trail_quote_s(model));
        q
    }
}

impl Quote {
    /// Parses a block quote; yields nothing unless the block has at least
    /// one line and every line starts with `>`.
    pub fn new(s: &str) -> (r: Option<Self>)
        ensures
            match r {
                Some(q) => quote_parse_s(s@) == Some(q@),
                None => quote_parse_s(s@) is None,
            },
    {
        let v = to_chars(s);
        let t = trim(&v);
        let raw_lines = split_lines(&t);
        // trim each line
        let mut raw: Vec<Vec<char>> = Vec::new();
        let mut i: usize = 0;
        while i < raw_lines.len()
            invariant
                0 <= i <= raw_lines@.len(),
                raw_lines@.map_values(|l: Vec<char>| l@) == lines_s(trim_s(v@)),
                raw@.map_values(|l: Vec<char>| l@) =~= quote_raw_lines_s(v@).take(i as int),
            decreases raw_lines@.len() - i,
        {
            let tl = trim(&raw_lines[i]);
            assert(tl@ == trim_s(raw_lines@.map_values(|l: Vec<char>| l@)[i as int]));
            raw.push(tl);
            assert(raw@.map_values(|l: Vec<char>| l@) =~= quote_raw_lines_s(v@).take(
                i + 1 as int,
            ));
            i += 1;
        }
        assert(raw@.map_values(|l: Vec<char>| l@) =~= quote_raw_lines_s(v@));
        let ghost rawm = quote_raw_lines_s(v@);
        // every line must start with '>'
        if raw.len() == 0 {
            assert(!quote_applies_s(v@));
            return None;
        }
        let gt: Vec<char> = vec!['>'];
        assert(gt@ =~= seq!['>']);
        let mut i: usize = 0;
        while i < raw.len()
            invariant
                0 <= i <= raw@.len(),
                gt@ == seq!['>'],
                raw@.map_values(|l: Vec<char>| l@) == rawm,
                forall|j: int| 0 <= j < i ==> starts_with_s(#[trigger] rawm[j], seq!['>']),
            decreases raw@.len() - i,
        {
            if !starts_with(&raw[i], &gt) {
                assert(!starts_with_s(rawm[i as int], seq!['>']));
                assert(!quote_applies_s(v@));
                return None;
            }
            i += 1;
        }
        assert(quote_applies_s(v@));
        // strip '>' and whitespace
        let empty: Vec<char> = Vec::new();
        assert(empty@ =~= Seq::<char>::empty());
        let mut stripped: Vec<Vec<char>> = Vec::new();
        let mut i: usize = 0;
        while i < raw.len()
            invariant
                0 <= i <= raw@.len(),
                gt@ == seq!['>'],
                empty@ == Seq::<char>::empty(),
                raw@.map_values(|l: Vec<char>| l@) == rawm,
                stripped@.map_values(|l: Vec<char>| l@) =~= quote_stripped_lines_s(v@).take(
                    i as int,
                ),
            decreases raw@.len() - i,
        {
            let un = replace_first(&raw[i], &gt, &empty);
            let tl = trim(&un);
            assert(tl@ == quote_stripped_lines_s(v@)[i as int]);
            stripped.push(tl);
            assert(stripped@.map_values(|l: Vec<char>| l@) =~= quote_stripped_lines_s(v@).take(
                i + 1 as int,
            ));
            i += 1;
        }
        assert(stripped@.map_values(|l: Vec<char>| l@) =~= quote_stripped_lines_s(v@));
        let ghost strippedm = quote_stripped_lines_s(v@);
        // pull the title line
        let bold = bold_pat();
        let (title, ls1) = match find_bold_line(&stripped) {
            Some(ti) => {
                let tline = subrange_vec(&stripped[ti], 0, stripped[ti].len());
                assert(tline@ =~= strippedm[ti as int]);
                let kept = keep_lines_retain(&stripped, &tline);
                let title = replace_all(&tline, &bold, &empty);
                proof {
                    assert(title@ == quote_title_split_s(strippedm).0);
                    assert(kept@.map_values(|l: Vec<char>| l@) == quote_title_split_s(
                        strippedm,
                    ).1);
                }
                (title, kept)
            },
            None => {
                let title: Vec<char> = Vec::new();
                assert(title@ =~= quote_title_split_s(strippedm).0);
                (title, stripped)
            },
        };
        let ghost ls1m = quote_title_split_s(strippedm).1;
        assert(ls1@.map_values(|l: Vec<char>| l@) == ls1m);
        // pull the attribution line
        let dash = dash_pat();
        let emdash = emdash_pat();
        let (author_line, ls2) = match find_dash_line(&ls1) {
            Some(ai) => {
                let aline = subrange_vec(&ls1[ai], 0, ls1[ai].len());
                assert(aline@ =~= ls1m[ai as int]);
                let kept = keep_lines_retain(&ls1, &aline);
                let a1 = replace_first(&aline, &dash, &empty);
                let a2 = replace_first(&a1, &emdash, &empty);
                let al = trim(&a2);
                proof {
                    assert(al@ == quote_author_split_s(ls1m).0);
                    assert(kept@.map_values(|l: Vec<char>| l@) == quote_author_split_s(
                        ls1m,
                    ).1);
                }
                (al, kept)
            },
            None => {
                let al: Vec<char> = Vec::new();
                assert(al@ =~= quote_author_split_s(ls1m).0);
                (al, ls1)
            },
        };
        let ghost alm = quote_author_split_s(ls1m).0;
        let ghost ls2m = quote_author_split_s(ls1m).1;
        assert(author_line@ == alm);
        assert(ls2@.map_values(|l: Vec<char>| l@) == ls2m);
        // read up to two links off the attribution line
        let al_str = chars_to_string(&author_line);
        let (author, author_link, rem) = match take_next_link(al_str.as_str()) {
            Some((l, k)) => {
                let rem = subrange_vec(&author_line, k, author_line.len());
                assert(rem@ =~= alm.skip(k as int));
                (l.text, l.href, rem)
            },
            None => {
                let rem = subrange_vec(&author_line, 0, author_line.len());
                assert(rem@ =~= alm);
                (String::new(), String::new(), rem)
            },
        };
        let ob: Vec<char> = vec!['['];
        assert(ob@ =~= seq!['[']);
        proof {
            lemma_find_sub_s(rem@, seq!['[']);
        }
        let rem2 = match find_sub(&rem, &ob) {
            Some(i) => {
                assert(match_at(rem@, seq!['['], i as int));
                let r2 = subrange_vec(&rem, i, rem.len());
                assert(r2@ =~= rem@.skip(i as int));
                r2
            },
            None => rem,
        };
        let rem2_str = chars_to_string(&rem2);
        let (source, source_link) = match take_next_link(rem2_str.as_str()) {
            Some((l, _)) => (l.text, l.href),
            None => (String::new(), String::new()),
        };
        proof {
            assert(author@ == quote_links_s(alm).0);
            assert(author_link@ == quote_links_s(alm).1);
            assert(source@ == quote_links_s(alm).2);
            assert(source_link@ == quote_links_s(alm).3);
        }
        // the remaining lines form the quote paragraphs
        let body = keep_body_lines(&ls2);
        let groups = split_empty(&body);
        let sp: Vec<char> = vec![' '];
        assert(sp@ =~= seq![' ']);
        let mut joined: Vec<Vec<char>> = Vec::new();
        let ghost groupsm = split_empty_s(body_lines_s(ls2m));
        assert(groups@.map_values(|g: Vec<Vec<char>>| g@.map_values(|l: Vec<char>| l@))
            == groupsm);
        let mut i: usize = 0;
        while i < groups.len()
            invariant
                0 <= i <= groups@.len(),
                sp@ == seq![' '],
                groups@.map_values(|g: Vec<Vec<char>>| g@.map_values(|l: Vec<char>| l@))
                    == groupsm,
                joined@.map_values(|l: Vec<char>| l@) =~= groupsm.map_values(
                    |g: Seq<Seq<char>>| join_s(g, seq![' ']),
                ).take(i as int),
            decreases groups@.len() - i,
        {
            let j = join(&groups[i], &sp);
            assert(j@ == join_s(groupsm[i as int], seq![' ']));
            joined.push(j);
            assert(joined@.map_values(|l: Vec<char>| l@) =~= groupsm.map_values(
                |g: Seq<Seq<char>>| join_s(g, seq![' ']),
            ).take(i + 1 as int));
            i += 1;
        }
        assert(joined@.map_values(|l: Vec<char>| l@) =~= groupsm.map_values(
            |g: Seq<Seq<char>>| join_s(g, seq![' ']),
        ));
        let paras = keep_nonblank(&joined);
        assert(paras@.map_values(|l: Vec<char>| l@) == quote_paragraphs_s(ls2m));
        let paras = strip_lead_quote(paras);
        let paras = strip_trail_quote(paras);
        assert(paras@.map_values(|l: Vec<char>| l@) == strip_trail_quote_s(
            strip_lead_quote_s(quote_paragraphs_s(ls2m)),
        ));
        // assemble
        let mut quote_strs: Vec<String> = Vec::new();
        let mut i: usize = 0;
        while i < paras.len()
            invariant
                0 <= i <= paras@.len(),
                quote_strs@.map_values(|q: String| q@) =~= paras@.map_values(
                    |l: Vec<char>| l@,
                ).take(i as int),
            decreases paras@.len() - i,
        {
            quote_strs.push(chars_to_string(&paras[i]));
            assert(quote_strs@.map_values(|q: String| q@) =~= paras@.map_values(
                |l: Vec<char>| l@,
            ).take(i + 1 as int));
            i += 1;
        }
        assert(quote_strs@.map_values(|q: String| q@) =~= paras@.map_values(|l: Vec<char>| l@));
        let q = Quote {
            title: chars_to_string(&title),
            quote: quote_strs,
            author,
            author_link,
            source,
            source_link,
        };
        proof {
            let expect = quote_parse_s(v@).unwrap();
            assert(q@.title == expect.title);
            assert(q@.quote =~= expect.quote);
            assert(q@.author == expect.author);
            assert(q@.author_link == expect.author_link);
            assert(q@.source == expect.source);
            assert(q@.source_link == expect.source_link);
            assert(q@ =~~= expect);
        }
        Some(q)
    }
}

} // verus!
