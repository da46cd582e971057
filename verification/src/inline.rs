//! The inline grammar: links `[label](href "title")`, images (the same,
//! `!`-prefixed, with an optional `" :: inline"` label marker), footnote
//! references `[^id]`, and the left-to-right sentence scanner that turns a
//! text run into `Text` / `Link` / `FootnoteRef` items.
use vstd::prelude::*;
use crate::text::{
    contains_sub, contains_sub_s, find_sub, find_sub_s, is_ws, lemma_find_sub_s, match_at,
    replace_all, replace_all_s, starts_with, starts_with_s, subrange_vec, trim, trim_s,
};
use crate::split::{
    chars_to_string, join_s, lines_s, run_len_s, lemma_run_len_bounds, lemma_trim_structure,
    split_lines, join, to_chars, tokens, tokens_s,
};

verus! {

/// The `" :: inline"` marker a standalone image label may carry.
pub open spec fn inline_mark_s() -> Seq<char> {
    seq![' ', ':', ':', ' ', 'i', 'n', 'l', 'i', 'n', 'e']
}

fn inline_mark() -> (r: Vec<char>)
    ensures
        r@ == inline_mark_s(),
{
    let r: Vec<char> = vec![' ', ':', ':', ' ', 'i', 'n', 'l', 'i', 'n', 'e'];
    assert(r@ =~= inline_mark_s());
    r
}

/// Removes every `"`, `'` and `` ` `` character, the way a quoted title
/// token is cleaned.
pub open spec fn strip_quote_chars_s(t: Seq<char>) -> Seq<char> {
    replace_all_s(
        replace_all_s(replace_all_s(t, seq!['"'], Seq::empty()), seq!['\''], Seq::empty()),
        seq!['`'],
        Seq::empty(),
    )
}

fn strip_quote_chars(t: &Vec<char>) -> (r: Vec<char>)
    ensures
        r@ == strip_quote_chars_s(t@),
{
    let empty: Vec<char> = Vec::new();
    let dq: Vec<char> = vec!['"'];
    let sq: Vec<char> = vec!['\''];
    let bq: Vec<char> = vec!['`'];
    assert(dq@ =~= seq!['"']);
    assert(sq@ =~= seq!['\'']);
    assert(bq@ =~= seq!['`']);
    assert(empty@ =~= Seq::<char>::empty());
    let a = replace_all(t, &dq, &empty);
    let b = replace_all(&a, &sq, &empty);
    replace_all(&b, &bq, &empty)
}

/// The common body of the link and image grammars, applied to what follows
/// the opening bracket. Splits once on `"]("`; the part up to it is the
/// label; the part after it, up to any second `"]("`, must end in `)` and
/// is cut at the first `)`. Its first whitespace token is the href; a
/// second token, quote characters removed, is the explicit title.
pub open spec fn bracket_body_s(u: Seq<char>) -> Option<(Seq<char>, Seq<char>, Option<Seq<char>>)> {
    match find_sub_s(u, seq![']', '(']) {
        None => None,
        Some(i0) => {
            let alt = u.take(i0);
            let rest0 = u.skip(i0 + 2);
            let rest1 = match find_sub_s(rest0, seq![']', '(']) {
                Some(i1) => rest0.take(i1),
                None => rest0,
            };
            if rest1.len() > 0 && rest1.last() == ')' {
                let rest = match find_sub_s(rest1, seq![')']) {
                    Some(j) => rest1.take(j),
                    None => rest1,
                };
                let toks = tokens_s(rest);
                if toks.len() == 0 {
                    None
                } else {
                    let title = if toks.len() >= 2 {
                        Some(strip_quote_chars_s(trim_s(toks[1])))
                    } else {
                        None
                    };
                    Some((alt, toks[0], title))
                }
            } else {
                None
            }
        },
    }
}

fn bracket_body(u: &Vec<char>) -> (r: Option<(Vec<char>, Vec<char>, Option<Vec<char>>)>)
    ensures
        match r {
            Some((alt, href, title)) => {
                &&& bracket_body_s(u@) matches Some((a, h, t))
                &&& alt@ == a
                &&& href@ == h
                &&& match title {
                    Some(tv) => t == Some(tv@),
                    None => t is None,
                }
            },
            None => bracket_body_s(u@) is None,
        },
{
    let sep: Vec<char> = vec![']', '('];
    assert(sep@ =~= seq![']', '(']);
    let close: Vec<char> = vec![')'];
    assert(close@ =~= seq![')']);
    let n = u.len();
    proof {
        lemma_find_sub_s(u@, seq![']', '(']);
    }
    let i0 = match find_sub(u, &sep) {
        Some(i0) => i0,
        None => {
            return None;
        },
    };
    assert(match_at(u@, seq![']', '('], i0 as int));
    let alt = subrange_vec(u, 0, i0);
    let rest0 = subrange_vec(u, i0 + 2, n);
    proof {
        assert(alt@ =~= u@.take(i0 as int));
        assert(rest0@ =~= u@.skip(i0 + 2));
        lemma_find_sub_s(rest0@, seq![']', '(']);
    }
    let rest1 = match find_sub(&rest0, &sep) {
        Some(i1) => {
            assert(match_at(rest0@, seq![']', '('], i1 as int));
            let r = subrange_vec(&rest0, 0, i1);
            assert(r@ =~= rest0@.take(i1 as int));
            r
        },
        None => rest0,
    };
    if rest1.len() == 0 || rest1[rest1.len() - 1] != ')' {
        return None;
    }
    assert(rest1@.last() == ')');
    proof {
        lemma_find_sub_s(rest1@, seq![')']);
    }
    let rest = match find_sub(&rest1, &close) {
        Some(j) => {
            assert(match_at(rest1@, seq![')'], j as int));
            let r = subrange_vec(&rest1, 0, j);
            assert(r@ =~= rest1@.take(j as int));
            r
        },
        None => rest1,
    };
    let toks = tokens(&rest);
    if toks.len() == 0 {
        return None;
    }
    let ghost toks_m = tokens_s(rest@);
    assert(toks@.map_values(|t: Vec<char>| t@)[0] == toks_m[0]);
    let href = subrange_vec(&toks[0], 0, toks[0].len());
    assert(href@ =~= toks_m[0]);
    if toks.len() >= 2 {
        assert(toks@.map_values(|t: Vec<char>| t@)[1] == toks_m[1]);
        let t1 = trim(&toks[1]);
        assert(t1@ == trim_s(toks_m[1]));
        let title = strip_quote_chars(&t1);
        Some((alt, href, Some(title)))
    } else {
        Some((alt, href, None))
    }
}

/// A parsed inline link: its display text and target.
#[derive(Debug, Clone, PartialEq, Eq)]
pub struct Link {
    pub text: String,
    pub href: String,
}

/// The mathematical view of a `Link`.
pub ghost struct LinkModel {
    pub text: Seq<char>,
    pub href: Seq<char>,
}

impl View for Link {
    type V = LinkModel;

    open spec fn view(&self) -> LinkModel {
        LinkModel { text: self.text@, href: self.href@ }
    }
}

/// The link grammar over a whole (trimmed) string: an opening bracket,
/// then the bracket body; the display text is the explicit title when one
/// is given, else the label.
pub open spec fn link_parse_s(s: Seq<char>) -> Option<LinkModel> {
    let t = trim_s(s);
    if t.len() > 0 && t[0] == '[' {
        match bracket_body_s(t.skip(1)) {
            Some((alt, href, title)) => Some(
                LinkModel {
                    text: match title {
                        Some(tv) => tv,
                        None => alt,
                    },
                    href: href,
                },
            ),
            None => None,
        }
    } else {
        None
    }
}

impl Link {
    /// Parses `[label](href "optional title")`; any deviation from the
    /// grammar yields no match.
    pub fn new(s: &str) -> (r: Option<Self>)
        ensures
            match r {
                Some(l) => link_parse_s(s@) == Some(l@),
                None => link_parse_s(s@) is None,
            },
    {
        let v = to_chars(s);
        let t = trim(&v);
        if t.len() == 0 || t[0] != '[' {
            return None;
        }
        let u = subrange_vec(&t, 1, t.len());
        assert(u@ =~= trim_s(v@).skip(1));
        match bracket_body(&u) {
            Some((alt, href, title)) => {
                let text = match title {
                    Some(tv) => tv,
                    None => alt,
                };
                let l = Link { text: chars_to_string(&text), href: chars_to_string(&href) };
                Some(l)
            },
            None => None,
        }
    }
}

/// A parsed standalone image reference.
#[derive(Debug, Clone, PartialEq, Eq)]
pub struct Image {
    pub href: String,
    pub alt: String,
    pub title: String,
    pub inline: bool,
}

/// The mathematical view of an `Image`.
pub ghost struct ImageModel {
    pub href: Seq<char>,
    pub alt: Seq<char>,
    pub title: Seq<char>,
    pub inline: bool,
}

impl View for Image {
    type V = ImageModel;

    open spec fn view(&self) -> ImageModel {
        ImageModel {
            href: self.href@,
            alt: self.alt@,
            title: self.title@,
            inline: self.inline,
        }
    }
}

/// The image grammar: the link grammar prefixed with `!`. The label may
/// carry a `" :: inline"` marker, which sets the inline-display flag and is
/// removed from the stored label; the default title is the label as
/// written, marker included.
pub open spec fn image_parse_s(s: Seq<char>) -> Option<ImageModel> {
    let t = trim_s(s);
    if t.len() >= 2 && t[0] == '!' && t[1] == '[' {
        match bracket_body_s(t.skip(2)) {
            Some((alt, href, title)) => Some(
                ImageModel {
                    href: href,
                    alt: trim_s(replace_all_s(alt, inline_mark_s(), Seq::empty())),
                    title: match title {
                        Some(tv) => tv,
                        None => alt,
                    },
                    inline: contains_sub_s(alt, inline_mark_s()),
                },
            ),
            None => None,
        }
    } else {
        None
    }
}

impl Image {
    /// Parses `![label](href "optional title")`; any deviation from the
    /// grammar yields no match.
    pub fn new(s: &str) -> (r: Option<Self>)
        ensures
            match r {
                Some(i) => image_parse_s(s@) == Some(i@),
                None => image_parse_s(s@) is None,
            },
    {
        let v = to_chars(s);
        let t = trim(&v);
        if t.len() < 2 || t[0] != '!' || t[1] != '[' {
            return None;
        }
        let u = subrange_vec(&t, 2, t.len());
        assert(u@ =~= trim_s(v@).skip(2));
        match bracket_body(&u) {
            Some((alt, href, title)) => {
                let mark = inline_mark();
                let inline = contains_sub(&alt, &mark);
                let empty: Vec<char> = Vec::new();
                assert(empty@ =~= Seq::<char>::empty());
                let stripped = replace_all(&alt, &mark, &empty);
                let alt_clean = trim(&stripped);
                let title_v = match title {
                    Some(tv) => tv,
                    None => alt,
                };
                let i = Image {
                    href: chars_to_string(&href),
                    alt: chars_to_string(&alt_clean),
                    title: chars_to_string(&title_v),
                    inline,
                };
                Some(i)
            },
            None => None,
        }
    }
}


/// The footnote-reference grammar at the head of a suffix: after optional
/// leading whitespace, `[^`; the id runs from the third character to the
/// first `]` of the suffix, and that much input is consumed.
pub open spec fn footnote_parse_s(s: Seq<char>) -> Option<(Seq<char>, int)> {
    if starts_with_s(trim_s(s), seq!['[', '^']) {
        match find_sub_s(s, seq![']']) {
            Some(e) => Some((s.subrange(2, e), e + 1)),
            None => None,
        }
    } else {
        None
    }
}

/// When the footnote guard holds, the first `]` lies at position 2 or
/// later.
proof fn lemma_footnote_close_pos(s: Seq<char>, e: int)
    requires
        starts_with_s(trim_s(s), seq!['[', '^']),
        find_sub_s(s, seq![']']) == Some(e),
    ensures
        2 <= e < s.len(),
{
    lemma_find_sub_s(s, seq![']']);
    lemma_trim_structure(s);
    lemma_run_len_bounds(s, true);
    let w = run_len_s(s, true);
    assert(trim_s(s)[0] == s[w]);
    assert(trim_s(s)[1] == s[w + 1]);
    assert(s[w] == '[');
    assert(s[w + 1] == '^');
    assert forall|j: int| 0 <= j < e implies s[j] != ']' by {
        assert(!match_at(s, seq![']'], j));
        assert(s.subrange(j, j + 1) =~= seq![s[j]]);
    }
    assert(match_at(s, seq![']'], e));
    assert(s.subrange(e, e + 1)[0] == ']');
    assert(s.subrange(e, e + 1)[0] == s[e]);
    assert(s[e] == ']');
    if e < 2 {
        if w == 0 {
            assert(s[0] == '[' && s[1] == '^');
        } else if w == 1 {
            assert(is_ws(s[0]) && s[1] == '[');
        } else {
            assert(is_ws(s[0]) && is_ws(s[1]));
        }
        assert(s[e] != ']');
    }
}

/// The footnote grammar applied at position `i` of `v`.
fn footnote_at(v: &Vec<char>, i: usize) -> (r: Option<(Vec<char>, usize)>)
    requires
        i < v@.len(),
    ensures
        match r {
            Some((id, k)) => footnote_parse_s(v@.skip(i as int)) == Some((id@, k as int)) && 1 <= k
                <= v@.len() - i,
            None => footnote_parse_s(v@.skip(i as int)) is None,
        },
{
    let n = v.len();
    let sub = subrange_vec(v, i, n);
    assert(sub@ =~= v@.skip(i as int));
    let t = trim(&sub);
    if t.len() < 2 || t[0] != '[' || t[1] != '^' {
        assert(!starts_with_s(trim_s(sub@), seq!['[', '^'])) by {
            if starts_with_s(trim_s(sub@), seq!['[', '^']) {
                assert(trim_s(sub@).subrange(0, 2)[0] == trim_s(sub@)[0]);
                assert(trim_s(sub@).subrange(0, 2)[1] == trim_s(sub@)[1]);
            }
        }
        return None;
    }
    assert(starts_with_s(trim_s(sub@), seq!['[', '^'])) by {
        assert(trim_s(sub@).subrange(0, 2) =~= seq!['[', '^']);
    }
    let close: Vec<char> = vec![']'];
    assert(close@ =~= seq![']']);
    proof {
        lemma_find_sub_s(sub@, seq![']']);
    }
    match find_sub(&sub, &close) {
        Some(e) => {
            proof {
                lemma_footnote_close_pos(sub@, e as int);
            }
            let id = subrange_vec(&sub, 2, e);
            assert(id@ =~= sub@.subrange(2, e as int));
            Some((id, e + 1))
        },
        None => None,
    }
}

/// The link grammar over a prepared character sequence.
fn link_from_chars(v: &Vec<char>) -> (r: Option<Link>)
    ensures
        match r {
            Some(l) => link_parse_s(v@) == Some(l@),
            None => link_parse_s(v@) is None,
        },
{
    let t = trim(v);
    if t.len() == 0 || t[0] != '[' {
        return None;
    }
    let u = subrange_vec(&t, 1, t.len());
    assert(u@ =~= trim_s(v@).skip(1));
    match bracket_body(&u) {
        Some((alt, href, title)) => {
            let text = match title {
                Some(tv) => tv,
                None => alt,
            };
            let l = Link { text: chars_to_string(&text), href: chars_to_string(&href) };
            Some(l)
        },
        None => None,
    }
}

/// Taking a link off the head of a suffix: the suffix must open (after
/// optional whitespace) with `[`; everything up to and including the first
/// `)` is handed to the link grammar, and that much input is consumed.
pub open spec fn take_link_s(s: Seq<char>) -> Option<(LinkModel, int)> {
    if starts_with_s(trim_s(s), seq!['[']) {
        match find_sub_s(s, seq![')']) {
            Some(e) => match link_parse_s(s.take(e + 1)) {
                Some(l) => Some((l, e + 1)),
                None => None,
            },
            None => None,
        }
    } else {
        None
    }
}

/// The take-a-link grammar applied at position `i` of `v`.
fn take_link_at(v: &Vec<char>, i: usize) -> (r: Option<(Link, usize)>)
    requires
        i < v@.len(),
    ensures
        match r {
            Some((l, k)) => take_link_s(v@.skip(i as int)) == Some((l@, k as int)) && 1 <= k
                <= v@.len() - i,
            None => take_link_s(v@.skip(i as int)) is None,
        },
{
    let n = v.len();
    let sub = subrange_vec(v, i, n);
    assert(sub@ =~= v@.skip(i as int));
    let t = trim(&sub);
    if t.len() == 0 || t[0] != '[' {
        assert(!starts_with_s(trim_s(sub@), seq!['['])) by {
            if starts_with_s(trim_s(sub@), seq!['[']) {
                assert(trim_s(sub@).subrange(0, 1)[0] == trim_s(sub@)[0]);
            }
        }
        return None;
    }
    assert(starts_with_s(trim_s(sub@), seq!['['])) by {
        assert(trim_s(sub@).subrange(0, 1) =~= seq!['[']);
    }
    let close: Vec<char> = vec![')'];
    assert(close@ =~= seq![')']);
    proof {
        lemma_find_sub_s(sub@, seq![')']);
    }
    match find_sub(&sub, &close) {
        Some(e) => {
            assert(match_at(sub@, seq![')'], e as int));
            let cand = subrange_vec(&sub, 0, e + 1);
            assert(cand@ =~= sub@.take(e + 1));
            match link_from_chars(&cand) {
                Some(l) => Some((l, e + 1)),
                None => None,
            }
        },
        None => None,
    }
}

/// Parses a footnote reference from the head of `s`, returning the id and
/// the number of characters consumed.
pub fn parse_footnote_maintext(s: &str) -> (r: Option<(String, usize)>)
    ensures
        match r {
            Some((id, k)) => footnote_parse_s(s@) == Some((id@, k as int)),
            None => footnote_parse_s(s@) is None,
        },
{
    let v = to_chars(s);
    if v.len() == 0 {
        assert(trim_s(v@) =~= v@);
        return None;
    }
    match footnote_at(&v, 0) {
        Some((id, k)) => {
            assert(v@.skip(0) =~= v@);
            Some((chars_to_string(&id), k))
        },
        None => {
            assert(v@.skip(0) =~= v@);
            None
        },
    }
}

/// Extracts a link from the head of `s`, returning it and the number of
/// characters consumed.
pub fn take_next_link(s: &str) -> (r: Option<(Link, usize)>)
    ensures
        match r {
            Some((l, k)) => take_link_s(s@) == Some((l@, k as int)) && 1 <= k <= s@.len(),
            None => take_link_s(s@) is None,
        },
{
    let v = to_chars(s);
    if v.len() == 0 {
        assert(trim_s(v@) =~= v@);
        return None;
    }
    match take_link_at(&v, 0) {
        Some((l, k)) => {
            assert(v@.skip(0) =~= v@);
            Some((l, k))
        },
        None => {
            assert(v@.skip(0) =~= v@);
            None
        },
    }
}


/// One item of a parsed sentence.
#[derive(Debug, Clone, PartialEq, Eq)]
pub enum SentenceItem {
    Text { text: String },
    Link { l: Link },
    Footnote { id: String },
}

/// The mathematical view of a `SentenceItem`.
pub ghost enum SentenceItemModel {
    Text(Seq<char>),
    Link(LinkModel),
    Footnote(Seq<char>),
}

impl View for SentenceItem {
    type V = SentenceItemModel;

    open spec fn view(&self) -> SentenceItemModel {
        match self {
            SentenceItem::Text { text } => SentenceItemModel::Text(text@),
            SentenceItem::Link { l } => SentenceItemModel::Link(l@),
            SentenceItem::Footnote { id } => SentenceItemModel::Footnote(id@),
        }
    }
}

/// Pending plain text is flushed with its line breaks joined by single
/// spaces.
pub open spec fn flush_text_s(p: Seq<char>) -> Seq<char> {
    join_s(lines_s(p), seq![' '])
}

/// An empty text run is never emitted.
pub open spec fn flush_items_s(p: Seq<char>) -> Seq<SentenceItemModel> {
    if p.len() == 0 {
        seq![]
    } else {
        seq![SentenceItemModel::Text(flush_text_s(p))]
    }
}

/// The left-to-right sentence scan. `pending` is the plain text
/// accumulated so far. On `[^` a footnote token is attempted, on a bare
/// `[` a link; either success flushes the pending text and emits the
/// token, a failure makes the `[` literal. Everything else accumulates.
pub open spec fn sentence_scan_s(s: Seq<char>, pending: Seq<char>) -> Seq<SentenceItemModel>
    decreases s.len(),
    via sentence_scan_s_decreases
{
    if s.len() == 0 {
        flush_items_s(pending)
    } else if s[0] == '[' && s.len() >= 2 && s[1] == '^' {
        match footnote_parse_s(s) {
            Some((id, k)) => flush_items_s(pending) + seq![SentenceItemModel::Footnote(id)]
                + sentence_scan_s(s.skip(k), Seq::empty()),
            None => sentence_scan_s(s.drop_first(), pending.push('[')),
        }
    } else if s[0] == '[' {
        match take_link_s(s) {
            Some((l, k)) => flush_items_s(pending) + seq![SentenceItemModel::Link(l)]
                + sentence_scan_s(s.skip(k), Seq::empty()),
            None => sentence_scan_s(s.drop_first(), pending.push('[')),
        }
    } else {
        sentence_scan_s(s.drop_first(), pending.push(s[0]))
    }
}

#[via_fn]
proof fn sentence_scan_s_decreases(s: Seq<char>, pending: Seq<char>) {
    if s.len() > 0 {
        match footnote_parse_s(s) {
            Some((id, k)) => {
                lemma_find_sub_s(s, seq![']']);
            },
            None => {},
        }
        match take_link_s(s) {
            Some((l, k)) => {
                lemma_find_sub_s(s, seq![')']);
            },
            None => {},
        }
    }
}

/// A parsed sentence: the items of one text run.
#[derive(Debug, Clone, PartialEq, Eq)]
pub struct Sentence {
    pub items: Vec<SentenceItem>,
}

/// Flushes the pending text as one `Text` item, if any, and clears it.
fn flush_pending(items: &mut Vec<SentenceItem>, pending: &mut Vec<char>)
    ensures
        final(items)@.map_values(|it: SentenceItem| it@) == old(items)@.map_values(
            |it: SentenceItem| it@,
        ) + flush_items_s(old(pending)@),
        final(pending)@ == Seq::<char>::empty(),
{
    if pending.len() > 0 {
        let ls = split_lines(pending);
        let sp: Vec<char> = vec![' '];
        assert(sp@ =~= seq![' ']);
        let txt = join(&ls, &sp);
        assert(txt@ == flush_text_s(pending@));
        items.push(SentenceItem::Text { text: chars_to_string(&txt) });
        assert(items@.map_values(|it: SentenceItem| it@) =~= old(items)@.map_values(
            |it: SentenceItem| it@,
        ) + flush_items_s(old(pending)@));
    } else {
        assert(items@.map_values(|it: SentenceItem| it@) =~= old(items)@.map_values(
            |it: SentenceItem| it@,
        ) + flush_items_s(old(pending)@));
    }
    *pending = Vec::new();
}

impl Sentence {
    /// Scans one text run into its sentence items.
    pub fn new(s: &str) -> (r: Self)
        ensures
            r.items@.map_values(|it: SentenceItem| it@) == sentence_scan_s(s@, Seq::empty()),
    {
        let v = to_chars(s);
        let n = v.len();
        let mut items: Vec<SentenceItem> = Vec::new();
        let mut pending: Vec<char> = Vec::new();
        let mut i: usize = 0;
        proof {
            assert(v@.skip(0) =~= v@);
        }
        while i < n
            invariant
                0 <= i <= n == v@.len(),
                items@.map_values(|it: SentenceItem| it@) + sentence_scan_s(
                    v@.skip(i as int),
                    pending@,
                ) =~= sentence_scan_s(v@, Seq::empty()),
            decreases n - i,
        {
            let ghost at = v@.skip(i as int);
            proof {
                assert(at[0] == v@[i as int]);
                if i + 1 < n {
                    assert(at[1] == v@[i + 1]);
                }
            }
            let c = v[i];
            if c == '[' && i + 1 < n && v[i + 1] == '^' {
                match footnote_at(&v, i) {
                    Some((id, k)) => {
                        let ghost items0 = items@.map_values(|it: SentenceItem| it@);
                        let ghost pending0 = pending@;
                        flush_pending(&mut items, &mut pending);
                        items.push(SentenceItem::Footnote { id: chars_to_string(&id) });
                        proof {
                            assert(items@.map_values(|it: SentenceItem| it@) =~= items0
                                + flush_items_s(pending0) + seq![SentenceItemModel::Footnote(id@)]);
                            assert(at.skip(k as int) =~= v@.skip(i + k));
                        }
                        i += k;
                    },
                    None => {
                        pending.push('[');
                        proof {
                            assert(at.drop_first() =~= v@.skip(i + 1));
                        }
                        i += 1;
                    },
                }
            } else if c == '[' {
                match take_link_at(&v, i) {
                    Some((l, k)) => {
                        let ghost items0 = items@.map_values(|it: SentenceItem| it@);
                        let ghost pending0 = pending@;
                        let ghost lm = l@;
                        flush_pending(&mut items, &mut pending);
                        items.push(SentenceItem::Link { l });
                        proof {
                            assert(items@.map_values(|it: SentenceItem| it@) =~= items0
                                + flush_items_s(pending0) + seq![SentenceItemModel::Link(lm)]);
                            assert(at.skip(k as int) =~= v@.skip(i + k));
                        }
                        i += k;
                    },
                    None => {
                        pending.push('[');
                        proof {
                            assert(at.drop_first() =~= v@.skip(i + 1));
                        }
                        i += 1;
                    },
                }
            } else {
                pending.push(c);
                proof {
                    assert(at.drop_first() =~= v@.skip(i + 1));
                }
                i += 1;
            }
        }
        let ghost items1 = items@.map_values(|it: SentenceItem| it@);
        let ghost pending1 = pending@;
        flush_pending(&mut items, &mut pending);
        proof {
            assert(v@.skip(n as int) =~= Seq::<char>::empty());
            assert(items@.map_values(|it: SentenceItem| it@) =~= sentence_scan_s(
                v@,
                Seq::empty(),
            ));
        }
        Sentence { items }
    }
}

} // verus!
