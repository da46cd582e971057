//! The document tree and the structural parser: paragraphs classified as
//! image / quote / sentence, footnote-definition gathering, the embedded
//! configuration block, sections opened by heading lines, and the
//! classification heuristics.
use vstd::prelude::*;
use crate::text::{
    contains_sub, contains_sub_s, ends_with, ends_with_s, eq_chars, replace_all, replace_all_s,
    starts_with, starts_with_s, subrange_vec, trim, trim_s,
};
use crate::split::{
    chars_to_string, join, join_s, lines_s, split_empty, split_empty_s, split_lines, to_chars,
};
use crate::inline::{
    image_parse_s, sentence_scan_s, Image, ImageModel, Sentence, SentenceItem, SentenceItemModel,
};
use crate::quote::{
    find_line_s, keep_lines_s, lemma_find_line_s, lemma_keep_step, quote_parse_s, Quote,
    QuoteModel,
};
use crate::config::{config_parse_s, parse_config, Config, ConfigModel};
use crate::fingerprint::{fingerprint_s, sha256};

verus! {

/// One paragraph of a document.
#[derive(Debug, Clone, PartialEq, Eq)]
pub enum Paragraph {
    Sentence { s: Vec<SentenceItem> },
    Quote { q: Quote },
    Image { i: Image },
}

/// The mathematical view of a `Paragraph`.
pub ghost enum ParagraphModel {
    Sentence(Seq<SentenceItemModel>),
    Quote(QuoteModel),
    Image(ImageModel),
}

impl View for Paragraph {
    type V = ParagraphModel;

    open spec fn view(&self) -> ParagraphModel {
        match self {
            Paragraph::Sentence { s } => ParagraphModel::Sentence(
                s@.map_values(|it: SentenceItem| it@),
            ),
            Paragraph::Quote { q } => ParagraphModel::Quote(q@),
            Paragraph::Image { i } => ParagraphModel::Image(i@),
        }
    }
}

/// Classifies one blank-separated group with fixed precedence: a
/// standalone image, else a block quote, else a sentence run.
pub open spec fn paragraph_parse_s(s: Seq<char>) -> ParagraphModel {
    let t = trim_s(s);
    match image_parse_s(t) {
        Some(i) => ParagraphModel::Image(i),
        None => match quote_parse_s(t) {
            Some(q) => ParagraphModel::Quote(q),
            None => ParagraphModel::Sentence(sentence_scan_s(t, Seq::empty())),
        },
    }
}

/// Parses one paragraph group.
pub fn parse_paragraph(s: &str) -> (r: Paragraph)
    ensures
        r@ == paragraph_parse_s(s@),
{
    let v = to_chars(s);
    let t = trim(&v);
    let ts = chars_to_string(&t);
    match Image::new(ts.as_str()) {
        Some(i) => Paragraph::Image { i },
        None => match Quote::new(ts.as_str()) {
            Some(q) => Paragraph::Quote { q },
            None => {
                let sent = Sentence::new(ts.as_str());
                Paragraph::Sentence { s: sent.items }
            },
        },
    }
}

/// The non-empty groups among blank-separated line groups.
pub open spec fn nonempty_groups_s(gs: Seq<Seq<Seq<char>>>) -> Seq<Seq<Seq<char>>>
    decreases gs.len(),
{
    if gs.len() == 0 {
        seq![]
    } else if gs[0].len() > 0 {
        seq![gs[0]] + nonempty_groups_s(gs.drop_first())
    } else {
        nonempty_groups_s(gs.drop_first())
    }
}

proof fn lemma_nonempty_groups_step(gs: Seq<Seq<Seq<char>>>, i: int)
    requires
        0 <= i < gs.len(),
    ensures
        gs[i].len() > 0 ==> nonempty_groups_s(gs.skip(i)) =~= seq![gs[i]]
            + nonempty_groups_s(gs.skip(i + 1)),
        gs[i].len() == 0 ==> nonempty_groups_s(gs.skip(i)) =~= nonempty_groups_s(gs.skip(i + 1)),
{
    let t = gs.skip(i);
    assert(t[0] == gs[i]);
    assert(t.drop_first() =~= gs.skip(i + 1));
}

pub open spec fn crlf() -> Seq<char> {
    seq!['\r', '\n']
}

/// Splits a line run into paragraph groups on blank lines and classifies
/// each group.
pub open spec fn paragraphs_parse_s(s: Seq<char>) -> Seq<ParagraphModel> {
    let ls = lines_s(s).map_values(|l: Seq<char>| trim_s(l));
    let groups = nonempty_groups_s(split_empty_s(ls));
    groups.map_values(|g: Seq<Seq<char>>| paragraph_parse_s(join_s(g, crlf())))
}

/// Parses a line run into its paragraphs.
pub fn parse_paragraphs(s: &str) -> (r: Vec<Paragraph>)
    ensures
        r@.map_values(|p: Paragraph| p@) == paragraphs_parse_s(s@),
{
    let v = to_chars(s);
    let raw = split_lines(&v);
    let mut ls: Vec<Vec<char>> = Vec::new();
    let ghost lsm = lines_s(v@).map_values(|l: Seq<char>| trim_s(l));
    let mut i: usize = 0;
    while i < raw.len()
        invariant
            0 <= i <= raw@.len(),
            raw@.map_values(|l: Vec<char>| l@) == lines_s(v@),
            ls@.map_values(|l: Vec<char>| l@) =~= lsm.take(i as int),
        decreases raw@.len() - i,
    {
        let tl = trim(&raw[i]);
        assert(tl@ == lsm[i as int]);
        ls.push(tl);
        assert(ls@.map_values(|l: Vec<char>| l@) =~= lsm.take(i + 1 as int));
        i += 1;
    }
    assert(ls@.map_values(|l: Vec<char>| l@) =~= lsm);
    let groups = split_empty(&ls);
    let ghost gsm = split_empty_s(lsm);
    assert(groups@.map_values(|g: Vec<Vec<char>>| g@.map_values(|l: Vec<char>| l@)) == gsm);
    // keep the non-empty groups
    let mut kept: Vec<Vec<Vec<char>>> = Vec::new();
    let ghost to2 = |g: Vec<Vec<char>>| g@.map_values(|l: Vec<char>| l@);
    let mut i: usize = 0;
    proof {
        assert(gsm.skip(0) =~= gsm);
    }
    while i < groups.len()
        invariant
            0 <= i <= groups@.len(),
            to2 == (|g: Vec<Vec<char>>| g@.map_values(|l: Vec<char>| l@)),
            groups@.map_values(to2) == gsm,
            kept@.map_values(to2) + nonempty_groups_s(gsm.skip(i as int)) =~~= nonempty_groups_s(
                gsm,
            ),
        decreases groups@.len() - i,
    {
        proof {
            lemma_nonempty_groups_step(gsm, i as int);
        }
        if groups[i].len() > 0 {
            assert(gsm[i as int].len() > 0);
            let ghost kept0 = kept@.map_values(to2);
            let g = copy_group(&groups[i]);
            assert(g@.map_values(|l: Vec<char>| l@) =~= gsm[i as int]);
            kept.push(g);
            assert(kept@.map_values(to2) =~~= kept0 + seq![gsm[i as int]]);
            assert(kept@.map_values(to2) + nonempty_groups_s(gsm.skip(i + 1))
                =~~= nonempty_groups_s(gsm));
        } else {
            assert(gsm[i as int].len() == 0);
        }
        i += 1;
    }
    proof {
        assert(gsm.skip(gsm.len() as int) =~= Seq::<Seq<Seq<char>>>::empty());
        assert(kept@.map_values(to2) =~~= nonempty_groups_s(gsm));
    }
    // classify each kept group
    let ghost keptm = nonempty_groups_s(gsm);
    let crlf_v: Vec<char> = vec!['\r', '\n'];
    assert(crlf_v@ =~= crlf());
    let mut out: Vec<Paragraph> = Vec::new();
    let mut i: usize = 0;
    while i < kept.len()
        invariant
            0 <= i <= kept@.len(),
            to2 == (|g: Vec<Vec<char>>| g@.map_values(|l: Vec<char>| l@)),
            kept@.map_values(to2) == keptm,
            crlf_v@ == crlf(),
            out@.map_values(|p: Paragraph| p@) =~= keptm.map_values(
                |g: Seq<Seq<char>>| paragraph_parse_s(join_s(g, crlf())),
            ).take(i as int),
        decreases kept@.len() - i,
    {
        let joined = join(&kept[i], &crlf_v);
        assert(joined@ == join_s(keptm[i as int], crlf()));
        let js = chars_to_string(&joined);
        let p = parse_paragraph(js.as_str());
        out.push(p);
        assert(out@.map_values(|p: Paragraph| p@) =~= keptm.map_values(
            |g: Seq<Seq<char>>| paragraph_parse_s(join_s(g, crlf())),
        ).take(i + 1 as int));
        i += 1;
    }
    assert(out@.map_values(|p: Paragraph| p@) =~= paragraphs_parse_s(s@));
    out
}

/// A fresh copy of one group of lines.
fn copy_group(g: &Vec<Vec<char>>) -> (r: Vec<Vec<char>>)
    ensures
        r@.map_values(|l: Vec<char>| l@) == g@.map_values(|l: Vec<char>| l@),
{
    let mut r: Vec<Vec<char>> = Vec::new();
    let mut i: usize = 0;
    while i < g.len()
        invariant
            0 <= i <= g@.len(),
            r@.map_values(|l: Vec<char>| l@) =~= g@.map_values(|l: Vec<char>| l@).take(i as int),
        decreases g@.len() - i,
    {
        let c = subrange_vec(&g[i], 0, g[i].len());
        assert(c@ =~= g@[i as int]@);
        r.push(c);
        assert(r@.map_values(|l: Vec<char>| l@) =~= g@.map_values(|l: Vec<char>| l@).take(
            i + 1 as int,
        ));
        i += 1;
    }
    assert(r@.map_values(|l: Vec<char>| l@) =~= g@.map_values(|l: Vec<char>| l@));
    r
}

/// The document classification.
#[derive(Debug, Clone, Copy, PartialEq, Eq, Structural)]
pub enum ArticleType {
    Question,
    Tract,
    Prayer,
}

pub open spec fn amen_line() -> Seq<char> {
    seq!['A', 'm', 'e', 'n', '.']
}

pub open spec fn word_tags() -> Seq<char> {
    seq!['t', 'a', 'g', 's']
}

pub open spec fn word_gebet() -> Seq<char> {
    seq!['g', 'e', 'b', 'e', 't']
}

pub open spec fn word_prayer() -> Seq<char> {
    seq!['p', 'r', 'a', 'y', 'e', 'r']
}

pub open spec fn heading_mark() -> Seq<char> {
    seq!['#', ' ']
}

/// A prayer: some line is exactly `Amen.` once trimmed, or some line
/// mentions `tags` together with `gebet` or `prayer`.
pub open spec fn is_prayer_text_s(s: Seq<char>) -> bool {
    let ls = lines_s(s);
    (exists|j: int| 0 <= j < ls.len() && trim_s(#[trigger] ls[j]) == amen_line()) || (exists|j: int|
        0 <= j < ls.len() && contains_sub_s(#[trigger] ls[j], word_tags()) && (contains_sub_s(
            ls[j],
            word_gebet(),
        ) || contains_sub_s(ls[j], word_prayer())))
}

/// A question: some top-level heading line ends, once trimmed, in `?`.
pub open spec fn is_question_text_s(s: Seq<char>) -> bool {
    let ls = lines_s(s);
    exists|j: int|
        0 <= j < ls.len() && starts_with_s(#[trigger] ls[j], heading_mark()) && ends_with_s(
            trim_s(ls[j]),
            seq!['?'],
        )
}

/// The classification, prayer taking precedence over question.
pub open spec fn article_type_s(s: Seq<char>) -> ArticleType {
    if is_prayer_text_s(s) {
        ArticleType::Prayer
    } else if is_question_text_s(s) {
        ArticleType::Question
    } else {
        ArticleType::Tract
    }
}

impl ArticleType {
    /// Classifies a raw text by its content heuristics.
    pub fn new(s: &str) -> (r: ArticleType)
        ensures
            r == article_type_s(s@),
    {
        let v = to_chars(s);
        let ls = split_lines(&v);
        let ghost lsm = lines_s(v@);
        let amen: Vec<char> = vec!['A', 'm', 'e', 'n', '.'];
        assert(amen@ =~= amen_line());
        let tags_w: Vec<char> = vec!['t', 'a', 'g', 's'];
        assert(tags_w@ =~= word_tags());
        let gebet_w: Vec<char> = vec!['g', 'e', 'b', 'e', 't'];
        assert(gebet_w@ =~= word_gebet());
        let prayer_w: Vec<char> = vec!['p', 'r', 'a', 'y', 'e', 'r'];
        assert(prayer_w@ =~= word_prayer());
        let hm: Vec<char> = vec!['#', ' '];
        assert(hm@ =~= heading_mark());
        let qm: Vec<char> = vec!['?'];
        assert(qm@ =~= seq!['?']);
        let mut prayer: bool = false;
        let mut question: bool = false;
        let mut i: usize = 0;
        while i < ls.len()
            invariant
                0 <= i <= ls@.len(),
                ls@.map_values(|l: Vec<char>| l@) == lsm,
                amen@ == amen_line(),
                tags_w@ == word_tags(),
                gebet_w@ == word_gebet(),
                prayer_w@ == word_prayer(),
                hm@ == heading_mark(),
                qm@ == seq!['?'],
                prayer == ((exists|j: int|
                    0 <= j < i && trim_s(#[trigger] lsm[j]) == amen_line()) || (exists|j: int|
                    0 <= j < i && contains_sub_s(#[trigger] lsm[j], word_tags()) && (
                    contains_sub_s(lsm[j], word_gebet()) || contains_sub_s(
                        lsm[j],
                        word_prayer(),
                    )))),
                question == (exists|j: int|
                    0 <= j < i && starts_with_s(#[trigger] lsm[j], heading_mark()) && ends_with_s(
                        trim_s(lsm[j]),
                        seq!['?'],
                    )),
            decreases ls@.len() - i,
        {
            let line = &ls[i];
            assert(line@ == lsm[i as int]);
            let tl = trim(line);
            if eq_chars(&tl, &amen) {
                prayer = true;
            }
            if contains_sub(line, &tags_w) && (contains_sub(line, &gebet_w) || contains_sub(
                line,
                &prayer_w,
            )) {
                prayer = true;
            }
            if starts_with(line, &hm) && ends_with(&tl, &qm) {
                question = true;
            }
            i += 1;
        }
        if prayer {
            ArticleType::Prayer
        } else if question {
            ArticleType::Question
        } else {
            ArticleType::Tract
        }
    }
}


/// One section of a document: a heading line and the paragraphs under it.
#[derive(Debug, Clone, PartialEq, Eq)]
pub struct ArticleSection {
    pub title: String,
    pub indent: usize,
    pub pars: Vec<Paragraph>,
}

/// The mathematical view of an `ArticleSection`.
pub ghost struct SectionModel {
    pub title: Seq<char>,
    pub indent: int,
    pub pars: Seq<ParagraphModel>,
}

impl View for ArticleSection {
    type V = SectionModel;

    open spec fn view(&self) -> SectionModel {
        SectionModel {
            title: self.title@,
            indent: self.indent as int,
            pars: self.pars@.map_values(|p: Paragraph| p@),
        }
    }
}

/// A fully parsed document.
#[derive(Debug, Clone, PartialEq, Eq)]
pub struct ParsedArticle {
    pub title: String,
    pub date: String,
    pub tags: Vec<String>,
    pub authors: Vec<String>,
    pub sha256: String,
    pub img: Option<Image>,
    pub summary: Vec<Paragraph>,
    pub article_abstract: Vec<Paragraph>,
    pub sections: Vec<ArticleSection>,
    pub footnotes: Vec<String>,
}

/// The mathematical view of a `ParsedArticle`.
pub ghost struct ArticleModel {
    pub title: Seq<char>,
    pub date: Seq<char>,
    pub tags: Seq<Seq<char>>,
    pub authors: Seq<Seq<char>>,
    pub sha256: Seq<char>,
    pub img: Option<ImageModel>,
    pub summary: Seq<ParagraphModel>,
    pub article_abstract: Seq<ParagraphModel>,
    pub sections: Seq<SectionModel>,
    pub footnotes: Seq<Seq<char>>,
}

impl View for ParsedArticle {
    type V = ArticleModel;

    open spec fn view(&self) -> ArticleModel {
        ArticleModel {
            title: self.title@,
            date: self.date@,
            tags: self.tags@.map_values(|t: String| t@),
            authors: self.authors@.map_values(|a: String| a@),
            sha256: self.sha256@,
            img: match self.img {
                Some(ref i) => Some(i@),
                None => None,
            },
            summary: self.summary@.map_values(|p: Paragraph| p@),
            article_abstract: self.article_abstract@.map_values(|p: Paragraph| p@),
            sections: self.sections@.map_values(|sec: ArticleSection| sec@),
            footnotes: self.footnotes@.map_values(|f: String| f@),
        }
    }
}

/// A footnote-definition line: `[^id]: text`.
pub open spec fn is_footnote_line_s(l: Seq<char>) -> bool {
    starts_with_s(trim_s(l), seq!['[', '^']) && contains_sub_s(l, seq![']', ':'])
}

/// The footnote-definition lines, in order.
pub open spec fn footnote_lines_s(ls: Seq<Seq<char>>) -> Seq<Seq<char>> {
    keep_lines_s(ls, |l: Seq<char>| is_footnote_line_s(l))
}

/// The lines left when the footnote definitions are pulled out.
pub open spec fn nonfootnote_lines_s(ls: Seq<Seq<char>>) -> Seq<Seq<char>> {
    keep_lines_s(ls, |l: Seq<char>| !is_footnote_line_s(l))
}

/// The positions of the footnote-definition lines, from `i` on.
pub open spec fn footnote_idx_from_s(ls: Seq<Seq<char>>, i: int) -> Seq<int>
    decreases ls.len() - i,
{
    if i < 0 || i >= ls.len() {
        seq![]
    } else if is_footnote_line_s(ls[i]) {
        seq![i] + footnote_idx_from_s(ls, i + 1)
    } else {
        footnote_idx_from_s(ls, i + 1)
    }
}

/// Pulls the footnote-definition lines out of a line run: the lines
/// themselves, in order, and their positions.
pub fn gather_footnotes(ls: &Vec<Vec<char>>) -> (r: (Vec<Vec<char>>, Vec<usize>))
    ensures
        r.0@.map_values(|l: Vec<char>| l@) == footnote_lines_s(ls@.map_values(|l: Vec<char>| l@)),
        r.1@.map_values(|u: usize| u as int) == footnote_idx_from_s(
            ls@.map_values(|l: Vec<char>| l@),
            0,
        ),
{
    let ghost model = ls@.map_values(|l: Vec<char>| l@);
    let ghost p = |l: Seq<char>| is_footnote_line_s(l);
    let fo: Vec<char> = vec!['[', '^'];
    assert(fo@ =~= seq!['[', '^']);
    let fc: Vec<char> = vec![']', ':'];
    assert(fc@ =~= seq![']', ':']);
    let mut out: Vec<Vec<char>> = Vec::new();
    let mut idx: Vec<usize> = Vec::new();
    let mut i: usize = 0;
    proof {
        assert(model.skip(0) =~= model);
    }
    while i < ls.len()
        invariant
            0 <= i <= ls@.len(),
            model == ls@.map_values(|l: Vec<char>| l@),
            p == (|l: Seq<char>| is_footnote_line_s(l)),
            fo@ == seq!['[', '^'],
            fc@ == seq![']', ':'],
            out@.map_values(|l: Vec<char>| l@) + keep_lines_s(model.skip(i as int), p)
                =~~= keep_lines_s(model, p),
            idx@.map_values(|u: usize| u as int) + footnote_idx_from_s(model, i as int)
                =~= footnote_idx_from_s(model, 0),
        decreases ls@.len() - i,
    {
        proof {
            lemma_keep_step(model, p, i as int);
        }
        let line = subrange_vec(&ls[i], 0, ls[i].len());
        assert(line@ =~= model[i as int]);
        let tl = trim(&line);
        if starts_with(&tl, &fo) && contains_sub(&line, &fc) {
            assert(p(model[i as int]));
            out.push(line);
            idx.push(i);
            assert(idx@.map_values(|u: usize| u as int) + footnote_idx_from_s(model, i + 1)
                =~= footnote_idx_from_s(model, 0));
        } else {
            assert(!p(model[i as int]));
        }
        assert(out@.map_values(|l: Vec<char>| l@) + keep_lines_s(model.skip(i + 1), p)
            =~~= keep_lines_s(model, p));
        i += 1;
    }
    proof {
        assert(model.skip(model.len() as int) =~= Seq::<Seq<char>>::empty());
        assert(out@.map_values(|l: Vec<char>| l@) =~~= keep_lines_s(model, p));
        assert(idx@.map_values(|u: usize| u as int) =~= footnote_idx_from_s(model, 0));
    }
    (out, idx)
}

/// The lines left when the footnote definitions are removed.
fn keep_nonfootnotes(ls: &Vec<Vec<char>>) -> (r: Vec<Vec<char>>)
    ensures
        r@.map_values(|l: Vec<char>| l@) == nonfootnote_lines_s(
            ls@.map_values(|l: Vec<char>| l@),
        ),
{
    let ghost model = ls@.map_values(|l: Vec<char>| l@);
    let ghost p = |l: Seq<char>| !is_footnote_line_s(l);
    let fo: Vec<char> = vec!['[', '^'];
    assert(fo@ =~= seq!['[', '^']);
    let fc: Vec<char> = vec![']', ':'];
    assert(fc@ =~= seq![']', ':']);
    let mut out: Vec<Vec<char>> = Vec::new();
    let mut i: usize = 0;
    proof {
        assert(model.skip(0) =~= model);
    }
    while i < ls.len()
        invariant
            0 <= i <= ls@.len(),
            model == ls@.map_values(|l: Vec<char>| l@),
            p == (|l: Seq<char>| !is_footnote_line_s(l)),
            fo@ == seq!['[', '^'],
            fc@ == seq![']', ':'],
            out@.map_values(|l: Vec<char>| l@) + keep_lines_s(model.skip(i as int), p)
                =~~= keep_lines_s(model, p),
        decreases ls@.len() - i,
    {
        proof {
            lemma_keep_step(model, p, i as int);
        }
        let line = subrange_vec(&ls[i], 0, ls[i].len());
        assert(line@ =~= model[i as int]);
        let tl = trim(&line);
        if !(starts_with(&tl, &fo) && contains_sub(&line, &fc)) {
            assert(p(model[i as int]));
            out.push(line);
        } else {
            assert(!p(model[i as int]));
        }
        assert(out@.map_values(|l: Vec<char>| l@) + keep_lines_s(model.skip(i + 1), p)
            =~~= keep_lines_s(model, p));
        i += 1;
    }
    proof {
        assert(model.skip(model.len() as int) =~= Seq::<Seq<char>>::empty());
        assert(out@.map_values(|l: Vec<char>| l@) =~~= keep_lines_s(model, p));
    }
    out
}

/// The walk over the lines that pulls out the first fenced block: the
/// collected (trimmed) content lines and the positions of every consumed
/// line, fences included. A second fence opens nothing once content has
/// been collected.
pub open spec fn config_scan_s(
    ls: Seq<Seq<char>>,
    i: int,
    in_cb: bool,
    cb: Seq<Seq<char>>,
    ig: Seq<int>,
) -> (Seq<Seq<char>>, Seq<int>)
    decreases ls.len() - i,
{
    if i < 0 || i >= ls.len() {
        (cb, ig)
    } else if contains_sub_s(ls[i], seq!['`', '`', '`']) {
        if in_cb {
            config_scan_s(ls, i + 1, false, cb, ig.push(i))
        } else if cb.len() == 0 {
            config_scan_s(ls, i + 1, true, cb, ig.push(i))
        } else {
            config_scan_s(ls, i + 1, false, cb, ig)
        }
    } else if in_cb {
        config_scan_s(ls, i + 1, true, cb.push(trim_s(ls[i])), ig.push(i))
    } else {
        config_scan_s(ls, i + 1, false, cb, ig)
    }
}

/// The configuration a raw text carries: the first fenced block, its
/// lines joined and read as a configuration object.
pub open spec fn config_of_lines_s(ls: Seq<Seq<char>>) -> ConfigModel {
    config_parse_s(join_s(config_scan_s(ls, 0, false, seq![], seq![]).0, crlf()))
}

/// Extracts the configuration block: the parsed configuration and the
/// positions of the consumed lines.
pub fn extract_config(ls: &Vec<Vec<char>>) -> (r: (Config, Vec<usize>))
    ensures
        r.0@ == config_of_lines_s(ls@.map_values(|l: Vec<char>| l@)),
        r.1@.map_values(|u: usize| u as int) == config_scan_s(
            ls@.map_values(|l: Vec<char>| l@),
            0,
            false,
            seq![],
            seq![],
        ).1,
{
    let ghost model = ls@.map_values(|l: Vec<char>| l@);
    let fence: Vec<char> = vec!['`', '`', '`'];
    assert(fence@ =~= seq!['`', '`', '`']);
    let mut cb: Vec<Vec<char>> = Vec::new();
    let mut ig: Vec<usize> = Vec::new();
    let mut in_cb: bool = false;
    let mut i: usize = 0;
    proof {
        assert(cb@.map_values(|l: Vec<char>| l@) =~= Seq::<Seq<char>>::empty());
        assert(ig@.map_values(|u: usize| u as int) =~= Seq::<int>::empty());
        assert(seq![] =~= Seq::<Seq<char>>::empty());
        assert(seq![] =~= Seq::<int>::empty());
    }
    while i < ls.len()
        invariant
            0 <= i <= ls@.len(),
            model == ls@.map_values(|l: Vec<char>| l@),
            fence@ == seq!['`', '`', '`'],
            config_scan_s(model, 0, false, seq![], seq![]) == config_scan_s(
                model,
                i as int,
                in_cb,
                cb@.map_values(|l: Vec<char>| l@),
                ig@.map_values(|u: usize| u as int),
            ),
        decreases ls@.len() - i,
    {
        let ghost cbm = cb@.map_values(|l: Vec<char>| l@);
        let ghost igm = ig@.map_values(|u: usize| u as int);
        let line = &ls[i];
        assert(line@ == model[i as int]);
        if contains_sub(line, &fence) {
            if in_cb {
                in_cb = false;
                ig.push(i);
                assert(ig@.map_values(|u: usize| u as int) =~= igm.push(i as int));
            } else if cb.len() == 0 {
                in_cb = true;
                ig.push(i);
                assert(cbm.len() == 0);
                assert(ig@.map_values(|u: usize| u as int) =~= igm.push(i as int));
            } else {
                in_cb = false;
                assert(cbm.len() > 0);
            }
        } else if in_cb {
            let tl = trim(line);
            cb.push(tl);
            ig.push(i);
            assert(cb@.map_values(|l: Vec<char>| l@) =~= cbm.push(trim_s(model[i as int])));
            assert(ig@.map_values(|u: usize| u as int) =~= igm.push(i as int));
        }
        i += 1;
    }
    let crlf_v: Vec<char> = vec!['\r', '\n'];
    assert(crlf_v@ =~= crlf());
    let joined = join(&cb, &crlf_v);
    let js = chars_to_string(&joined);
    let config = parse_config(js.as_str());
    (config, ig)
}


/// The first top-level heading line.
pub open spec fn find_title_s(ls: Seq<Seq<char>>) -> Option<int> {
    find_line_s(ls, |l: Seq<char>| starts_with_s(l, heading_mark()))
}

/// The index of the title line; a document without one gets index 0 and
/// an empty title.
pub open spec fn title_line_idx_s(ls: Seq<Seq<char>>) -> int {
    match find_title_s(ls) {
        Some(j) => j,
        None => 0,
    }
}

pub open spec fn title_text_s(ls: Seq<Seq<char>>) -> Seq<char> {
    match find_title_s(ls) {
        Some(j) => trim_s(replace_all_s(ls[j], heading_mark(), Seq::<char>::empty())),
        None => Seq::<char>::empty(),
    }
}

/// The lines with index in `[lo, hi)` whose index is not in `ig`.
pub open spec fn slice_excl_s(ls: Seq<Seq<char>>, ig: Seq<int>, lo: int, hi: int) -> Seq<Seq<char>>
    decreases hi - lo,
{
    if lo >= hi {
        seq![]
    } else if ig.contains(lo) {
        slice_excl_s(ls, ig, lo + 1, hi)
    } else {
        seq![ls[lo]] + slice_excl_s(ls, ig, lo + 1, hi)
    }
}

/// How many leading body lines form the abstract: everything up to the
/// first line containing a heading mark.
pub open spec fn abstract_len_s(ls: Seq<Seq<char>>) -> int {
    match find_line_s(ls, |l: Seq<char>| contains_sub_s(l, heading_mark())) {
        Some(i) => i,
        None => ls.len() as int,
    }
}

/// The positions of the heading lines (those containing a heading mark),
/// from `i` on.
pub open spec fn heading_idx_from_s(ls: Seq<Seq<char>>, i: int) -> Seq<int>
    decreases ls.len() - i,
{
    if i < 0 || i >= ls.len() {
        seq![]
    } else if contains_sub_s(ls[i], heading_mark()) {
        seq![i] + heading_idx_from_s(ls, i + 1)
    } else {
        heading_idx_from_s(ls, i + 1)
    }
}

pub proof fn lemma_heading_idx(ls: Seq<Seq<char>>, i: int)
    requires
        0 <= i,
    ensures
        forall|k: int|
            0 <= k < heading_idx_from_s(ls, i).len() ==> i <= #[trigger] heading_idx_from_s(
                ls,
                i,
            )[k] < ls.len(),
        forall|k: int|
            0 <= k < heading_idx_from_s(ls, i).len() - 1 ==> #[trigger] heading_idx_from_s(
                ls,
                i,
            )[k] < heading_idx_from_s(ls, i)[k + 1],
    decreases ls.len() - i,
{
    if i < ls.len() {
        lemma_heading_idx(ls, i + 1);
        let r = heading_idx_from_s(ls, i);
        let d = heading_idx_from_s(ls, i + 1);
        if contains_sub_s(ls[i], heading_mark()) {
            assert forall|k: int| 0 <= k < r.len() implies i <= #[trigger] r[k] < ls.len() by {
                if k > 0 {
                    assert(r[k] == d[k - 1]);
                }
            }
            assert forall|k: int| 0 <= k < r.len() - 1 implies #[trigger] r[k] < r[k + 1] by {
                if k > 0 {
                    assert(r[k] == d[k - 1] && r[k + 1] == d[k]);
                } else {
                    assert(r[0] == i && r[1] == d[0]);
                }
            }
        } else {
            assert(r =~= d);
        }
    }
}

/// The number of occurrences of `c` in `l`, from `i` on.
pub open spec fn count_from_s(l: Seq<char>, c: char, i: int) -> int
    decreases l.len() - i,
{
    if i < 0 || i >= l.len() {
        0
    } else if l[i] == c {
        1 + count_from_s(l, c, i + 1)
    } else {
        count_from_s(l, c, i + 1)
    }
}

proof fn lemma_count_bound(l: Seq<char>, c: char, i: int)
    requires
        0 <= i <= l.len(),
    ensures
        0 <= count_from_s(l, c, i) <= l.len() - i,
    decreases l.len() - i,
{
    if i < l.len() {
        lemma_count_bound(l, c, i + 1);
    }
}

/// One section: the heading line gives the title (heading markers
/// removed) and the depth (the count of `#` characters); the lines up to
/// the next heading give the paragraphs.
pub open spec fn section_of_s(body: Seq<Seq<char>>, a: int, b: int) -> SectionModel {
    SectionModel {
        title: trim_s(replace_all_s(body[a], seq!['#'], Seq::<char>::empty())),
        indent: count_from_s(body[a], '#', 0),
        pars: paragraphs_parse_s(join_s(body.subrange(a + 1, b), crlf())),
    }
}

/// The sections cut at consecutive positions of `idxs` (the heading
/// positions with the body length appended).
pub open spec fn sections_from_s(body: Seq<Seq<char>>, idxs: Seq<int>, k: int) -> Seq<SectionModel>
    decreases idxs.len() - k,
{
    if k < 0 || k + 1 >= idxs.len() {
        seq![]
    } else {
        seq![section_of_s(body, idxs[k], idxs[k + 1])] + sections_from_s(body, idxs, k + 1)
    }
}

/// The whole structural grammar of one document.
pub open spec fn article_parse_s(s: Seq<char>) -> ArticleModel {
    let ls = lines_s(s);
    let tj = title_line_idx_s(ls);
    let scan = config_scan_s(ls, 0, false, seq![], seq![]);
    let config = config_parse_s(join_s(scan.0, crlf()));
    let before = slice_excl_s(ls, scan.1, 0, tj);
    let after = slice_excl_s(ls, scan.1, tj + 1, ls.len() as int);
    let alen = abstract_len_s(after);
    let ab = after.take(alen);
    let rest = after.skip(alen);
    let body = nonfootnote_lines_s(rest);
    let idxs = heading_idx_from_s(body, 0).push(body.len() as int);
    ArticleModel {
        title: title_text_s(ls),
        date: config.date,
        tags: config.tags,
        authors: config.authors,
        sha256: fingerprint_s(s),
        img: None,
        summary: paragraphs_parse_s(join_s(before, crlf())),
        article_abstract: paragraphs_parse_s(join_s(ab, crlf())),
        sections: sections_from_s(body, idxs, 0),
        footnotes: footnote_lines_s(rest),
    }
}

/// Whether `j` occurs in the index list.
fn contains_idx(ig: &Vec<usize>, j: usize) -> (r: bool)
    ensures
        r == ig@.map_values(|u: usize| u as int).contains(j as int),
{
    let ghost igm = ig@.map_values(|u: usize| u as int);
    let mut i: usize = 0;
    while i < ig.len()
        invariant
            0 <= i <= ig@.len(),
            igm == ig@.map_values(|u: usize| u as int),
            forall|k: int| 0 <= k < i ==> igm[k] != j as int,
        decreases ig@.len() - i,
    {
        if ig[i] == j {
            assert(igm[i as int] == j as int);
            return true;
        }
        i += 1;
    }
    assert(!igm.contains(j as int));
    false
}

/// The exec mirror of `slice_excl_s`.
fn slice_excl(ls: &Vec<Vec<char>>, ig: &Vec<usize>, lo: usize, hi: usize) -> (r: Vec<Vec<char>>)
    requires
        hi <= ls@.len(),
    ensures
        r@.map_values(|l: Vec<char>| l@) == slice_excl_s(
            ls@.map_values(|l: Vec<char>| l@),
            ig@.map_values(|u: usize| u as int),
            lo as int,
            hi as int,
        ),
{
    let ghost model = ls@.map_values(|l: Vec<char>| l@);
    let ghost igm = ig@.map_values(|u: usize| u as int);
    let mut out: Vec<Vec<char>> = Vec::new();
    let mut j: usize = lo;
    if lo >= hi {
        assert(out@.map_values(|l: Vec<char>| l@) =~= slice_excl_s(model, igm, lo as int, hi as int));
        return out;
    }
    while j < hi
        invariant
            lo <= j <= hi <= ls@.len(),
            model == ls@.map_values(|l: Vec<char>| l@),
            igm == ig@.map_values(|u: usize| u as int),
            out@.map_values(|l: Vec<char>| l@) + slice_excl_s(model, igm, j as int, hi as int)
                =~~= slice_excl_s(model, igm, lo as int, hi as int),
        decreases hi - j,
    {
        if !contains_idx(ig, j) {
            let c = subrange_vec(&ls[j], 0, ls[j].len());
            assert(c@ =~= model[j as int]);
            out.push(c);
        }
        assert(out@.map_values(|l: Vec<char>| l@) + slice_excl_s(model, igm, j + 1, hi as int)
            =~~= slice_excl_s(model, igm, lo as int, hi as int));
        j += 1;
    }
    assert(out@.map_values(|l: Vec<char>| l@) =~~= slice_excl_s(model, igm, lo as int, hi as int));
    out
}

/// A fresh copy of the lines in `[lo, hi)`.
fn slice_lines(ls: &Vec<Vec<char>>, lo: usize, hi: usize) -> (r: Vec<Vec<char>>)
    requires
        lo <= hi <= ls@.len(),
    ensures
        r@.map_values(|l: Vec<char>| l@) == ls@.map_values(|l: Vec<char>| l@).subrange(
            lo as int,
            hi as int,
        ),
{
    let ghost model = ls@.map_values(|l: Vec<char>| l@);
    let mut out: Vec<Vec<char>> = Vec::new();
    let mut j: usize = lo;
    while j < hi
        invariant
            lo <= j <= hi <= ls@.len(),
            model == ls@.map_values(|l: Vec<char>| l@),
            out@.map_values(|l: Vec<char>| l@) =~= model.subrange(lo as int, j as int),
        decreases hi - j,
    {
        let c = subrange_vec(&ls[j], 0, ls[j].len());
        assert(c@ =~= model[j as int]);
        out.push(c);
        assert(out@.map_values(|l: Vec<char>| l@) =~= model.subrange(lo as int, j + 1));
        j += 1;
    }
    out
}

/// Parses one document's raw text into its tree. Never fails: malformed
/// pieces fall back to defaults or literal text.
#[verifier::rlimit(100)]
pub fn parse_article(s: &str) -> (r: ParsedArticle)
    ensures
        r@ == article_parse_s(s@),
{
    let v = to_chars(s);
    let ls = split_lines(&v);
    let ghost lsm = lines_s(v@);
    let hm: Vec<char> = vec!['#', ' '];
    assert(hm@ =~= heading_mark());
    // the title: the first line opening with a top-level heading marker
    let ghost ptitle = |l: Seq<char>| starts_with_s(l, heading_mark());
    proof {
        lemma_find_line_s(lsm, ptitle);
    }
    let mut tj: usize = 0;
    let mut title: Vec<char> = Vec::new();
    let mut found: bool = false;
    let mut i: usize = 0;
    while i < ls.len() && !found
        invariant
            0 <= i <= ls@.len(),
            ls@.map_values(|l: Vec<char>| l@) == lsm,
            hm@ == heading_mark(),
            ptitle == (|l: Seq<char>| starts_with_s(l, heading_mark())),
            !found ==> forall|k: int| 0 <= k < i ==> !ptitle(lsm[k]),
            !found ==> tj == 0 && title@.len() == 0,
            found ==> find_title_s(lsm) == Some(tj as int) && tj < i && title@ == title_text_s(
                lsm,
            ),
        decreases ls@.len() - i,
    {
        if starts_with(&ls[i], &hm) {
            assert(ptitle(lsm[i as int]));
            proof {
                match find_title_s(lsm) {
                    Some(fi) => {
                        if fi < i {
                            assert(!ptitle(lsm[fi]));
                        }
                        if fi > i {
                            assert(!ptitle(lsm[i as int]));
                        }
                    },
                    None => {
                        assert(!ptitle(lsm[i as int]));
                    },
                }
            }
            tj = i;
            let empty: Vec<char> = Vec::new();
            assert(empty@ =~= Seq::<char>::empty());
            let stripped = replace_all(&ls[i], &hm, &empty);
            title = trim(&stripped);
            assert(title@ == title_text_s(lsm));
            found = true;
        }
        i += 1;
    }
    proof {
        if !found {
            match find_title_s(lsm) {
                Some(fi) => {
                    assert(!ptitle(lsm[fi]));
                },
                None => {},
            }
            assert(title_text_s(lsm) =~= Seq::<char>::empty());
        }
        assert(tj as int == title_line_idx_s(lsm));
        assert(title@ == title_text_s(lsm));
    }
    // the fingerprint of the full original text
    let sha = sha256(s);
    // the embedded configuration
    let (config, ig) = extract_config(&ls);
    let ghost igm = config_scan_s(lsm, 0, false, seq![], seq![]).1;
    assert(ig@.map_values(|u: usize| u as int) == igm);
    // summary region and body region
    let before = slice_excl(&ls, &ig, 0, tj);
    let after = if tj + 1 <= ls.len() {
        slice_excl(&ls, &ig, tj + 1, ls.len())
    } else {
        let e: Vec<Vec<char>> = Vec::new();
        assert(e@.map_values(|l: Vec<char>| l@) =~= slice_excl_s(lsm, igm, tj + 1, lsm.len() as int));
        e
    };
    let ghost afterm = slice_excl_s(lsm, igm, tj + 1, lsm.len() as int);
    assert(after@.map_values(|l: Vec<char>| l@) == afterm);
    // the abstract: leading body lines up to the first heading line
    let ghost pheading = |l: Seq<char>| contains_sub_s(l, heading_mark());
    proof {
        lemma_find_line_s(afterm, pheading);
    }
    let mut alen: usize = after.len();
    let mut found_h: bool = false;
    let mut i: usize = 0;
    while i < after.len() && !found_h
        invariant
            0 <= i <= after@.len(),
            after@.map_values(|l: Vec<char>| l@) == afterm,
            hm@ == heading_mark(),
            pheading == (|l: Seq<char>| contains_sub_s(l, heading_mark())),
            !found_h ==> (forall|k: int| 0 <= k < i ==> !pheading(afterm[k])) && alen
                == after@.len(),
            found_h ==> find_line_s(afterm, pheading) == Some(alen as int) && alen < i,
        decreases after@.len() - i,
    {
        if contains_sub(&after[i], &hm) {
            assert(pheading(afterm[i as int]));
            proof {
                match find_line_s(afterm, pheading) {
                    Some(fi) => {
                        if fi < i {
                            assert(!pheading(afterm[fi]));
                        }
                        if fi > i {
                            assert(!pheading(afterm[i as int]));
                        }
                    },
                    None => {
                        assert(!pheading(afterm[i as int]));
                    },
                }
            }
            alen = i;
            found_h = true;
        }
        i += 1;
    }
    proof {
        if !found_h {
            match find_line_s(afterm, pheading) {
                Some(fi) => {
                    assert(!pheading(afterm[fi]));
                },
                None => {},
            }
        }
        assert(alen as int == abstract_len_s(afterm));
    }
    let ab = slice_lines(&after, 0, alen);
    let rest = slice_lines(&after, alen, after.len());
    proof {
        assert(afterm.subrange(0, alen as int) =~= afterm.take(alen as int));
        assert(afterm.subrange(alen as int, afterm.len() as int) =~= afterm.skip(alen as int));
    }
    let ghost restm = afterm.skip(alen as int);
    assert(rest@.map_values(|l: Vec<char>| l@) == restm);
    // footnotes out, sections over what is left
    let (fns, _fidx) = gather_footnotes(&rest);
    let body = keep_nonfootnotes(&rest);
    let ghost bodym = nonfootnote_lines_s(restm);
    assert(body@.map_values(|l: Vec<char>| l@) == bodym);
    // heading positions, with the sentinel appended
    let mut idxs: Vec<usize> = Vec::new();
    let mut i: usize = 0;
    while i < body.len()
        invariant
            0 <= i <= body@.len(),
            body@.map_values(|l: Vec<char>| l@) == bodym,
            hm@ == heading_mark(),
            idxs@.map_values(|u: usize| u as int) + heading_idx_from_s(bodym, i as int)
                =~= heading_idx_from_s(bodym, 0),
        decreases body@.len() - i,
    {
        if contains_sub(&body[i], &hm) {
            idxs.push(i);
            assert(idxs@.map_values(|u: usize| u as int) + heading_idx_from_s(bodym, i + 1)
                =~= heading_idx_from_s(bodym, 0));
        }
        i += 1;
    }
    assert(idxs@.map_values(|u: usize| u as int) =~= heading_idx_from_s(bodym, 0));
    proof {
        lemma_heading_idx(bodym, 0);
    }
    idxs.push(body.len());
    let ghost idxsm = heading_idx_from_s(bodym, 0).push(bodym.len() as int);
    assert(idxs@.map_values(|u: usize| u as int) =~= idxsm);
    // build the sections
    let crlf_v: Vec<char> = vec!['\r', '\n'];
    assert(crlf_v@ =~= crlf());
    let mut sections: Vec<ArticleSection> = Vec::new();
    let nidx = idxs.len();
    let mut k: usize = 0;
    while k + 1 < nidx
        invariant
            nidx == idxs@.len(),
            0 <= k <= idxs@.len() - 1,
            idxs@.map_values(|u: usize| u as int) == idxsm,
            idxsm == heading_idx_from_s(bodym, 0).push(bodym.len() as int),
            body@.map_values(|l: Vec<char>| l@) == bodym,
            hm@ == heading_mark(),
            crlf_v@ == crlf(),
            sections@.map_values(|sec: ArticleSection| sec@) + sections_from_s(
                bodym,
                idxsm,
                k as int,
            ) =~~= sections_from_s(bodym, idxsm, 0),
        decreases idxs@.len() - k,
    {
        let a = idxs[k];
        let b = idxs[k + 1];
        proof {
            lemma_heading_idx(bodym, 0);
            assert(idxsm[k as int] == a as int);
            assert(idxsm[k + 1] == b as int);
            if k + 2 < idxsm.len() {
                assert(heading_idx_from_s(bodym, 0)[k as int] < heading_idx_from_s(bodym, 0)[
                    k + 1]);
            } else {
                assert(heading_idx_from_s(bodym, 0)[k as int] < bodym.len());
            }
            assert(a < b <= bodym.len());
        }
        // the heading line
        let line = &body[a];
        assert(line@ == bodym[a as int]);
        let hash: Vec<char> = vec!['#'];
        assert(hash@ =~= seq!['#']);
        let empty: Vec<char> = Vec::new();
        assert(empty@ =~= Seq::<char>::empty());
        let stripped = replace_all(line, &hash, &empty);
        let sec_title = trim(&stripped);
        assert(sec_title@ == section_of_s(bodym, a as int, b as int).title);
        // the heading depth
        let mut cnt: usize = 0;
        let mut ci: usize = 0;
        let n = line.len();
        proof {
            lemma_count_bound(line@, '#', 0);
        }
        while ci < n
            invariant
                0 <= ci <= n == line@.len(),
                cnt <= ci,
                line@ == bodym[a as int],
                cnt + count_from_s(line@, '#', ci as int) == count_from_s(line@, '#', 0),
            decreases n - ci,
        {
            if line[ci] == '#' {
                cnt += 1;
            }
            ci += 1;
        }
        assert(cnt as int == count_from_s(bodym[a as int], '#', 0));
        // the paragraphs between this heading and the next
        let between = slice_lines(&body, a + 1, b);
        assert(between@.map_values(|l: Vec<char>| l@) =~= bodym.subrange(a + 1, b as int));
        let joined = join(&between, &crlf_v);
        assert(joined@ == join_s(bodym.subrange(a + 1, b as int), crlf()));
        let js = chars_to_string(&joined);
        let pars = parse_paragraphs(js.as_str());
        let sec = ArticleSection { title: chars_to_string(&sec_title), indent: cnt, pars };
        proof {
            assert(sec@.title == section_of_s(bodym, a as int, b as int).title);
            assert(sec@.indent == section_of_s(bodym, a as int, b as int).indent);
            assert(sec@.pars == section_of_s(bodym, a as int, b as int).pars);
            assert(sec@ =~~= section_of_s(bodym, a as int, b as int));
        }
        let ghost secs0 = sections@.map_values(|sec: ArticleSection| sec@);
        sections.push(sec);
        proof {
            assert(sections@.map_values(|sec: ArticleSection| sec@) =~~= secs0 + seq![
                section_of_s(bodym, a as int, b as int)]);
            assert(sections@.map_values(|sec: ArticleSection| sec@) + sections_from_s(
                bodym,
                idxsm,
                k + 1,
            ) =~~= sections_from_s(bodym, idxsm, 0));
        }
        k += 1;
    }
    proof {
        assert(sections_from_s(bodym, idxsm, idxsm.len() - 1) =~= Seq::<SectionModel>::empty());
        assert(sections@.map_values(|sec: ArticleSection| sec@) =~~= sections_from_s(
            bodym,
            idxsm,
            0,
        ));
    }
    // summary and abstract paragraphs
    let joined_before = join(&before, &crlf_v);
    let bs = chars_to_string(&joined_before);
    let summary = parse_paragraphs(bs.as_str());
    let joined_ab = join(&ab, &crlf_v);
    let abs_s = chars_to_string(&joined_ab);
    let article_abstract = parse_paragraphs(abs_s.as_str());
    let footnotes = crate::config::strings_of(&fns);
    let r = ParsedArticle {
        title: chars_to_string(&title),
        date: config.date,
        tags: config.tags,
        authors: config.authors,
        sha256: sha,
        img: None,
        summary,
        article_abstract,
        sections,
        footnotes,
    };
    proof {
        let expect = article_parse_s(s@);
        assert(r@.title == expect.title);
        assert(r@.date == expect.date);
        assert(r@.tags == expect.tags);
        assert(r@.authors == expect.authors);
        assert(r@.sha256 == expect.sha256);
        assert(r@.summary == expect.summary);
        assert(r@.article_abstract == expect.article_abstract);
        assert(r@.sections == expect.sections);
        assert(r@.footnotes == expect.footnotes);
        assert(r@ =~~= expect);
    }
    r
}


/// The concatenation of a run of character sequences.
pub open spec fn concat_chars_s(xs: Seq<Seq<char>>) -> Seq<char>
    decreases xs.len(),
{
    if xs.len() == 0 {
        Seq::empty()
    } else {
        xs[0] + concat_chars_s(xs.drop_first())
    }
}

/// Extending a concatenation by one piece appends that piece.
pub proof fn lemma_concat_take(xs: Seq<Seq<char>>, i: int)
    requires
        0 <= i < xs.len(),
    ensures
        concat_chars_s(xs.take(i + 1)) =~= concat_chars_s(xs.take(i)) + xs[i],
    decreases i,
{
    if i == 0 {
        assert(xs.take(1) =~= seq![xs[0]]);
        assert(xs.take(1).drop_first() =~= xs.take(0));
        assert(xs.take(0) =~= Seq::<Seq<char>>::empty());
    } else {
        let d = xs.drop_first();
        lemma_concat_take(d, i - 1);
        assert(xs.take(i + 1).drop_first() =~= d.take(i));
        assert(xs.take(i).drop_first() =~= d.take(i - 1));
        assert(d[i - 1] == xs[i]);
        assert(concat_chars_s(xs.take(i + 1)) =~= xs[0] + concat_chars_s(d.take(i)));
        assert(concat_chars_s(xs.take(i)) =~= xs[0] + concat_chars_s(d.take(i - 1)));
    }
}

/// The plain characters of one sentence item.
pub open spec fn item_chars_s(it: SentenceItemModel) -> Seq<char> {
    match it {
        SentenceItemModel::Text(t) => t,
        SentenceItemModel::Link(l) => l.text,
        SentenceItemModel::Footnote(id) => id,
    }
}

/// The plain characters of one paragraph, in the order its parts are
/// stored.
pub open spec fn par_chars_s(p: ParagraphModel) -> Seq<char> {
    match p {
        ParagraphModel::Sentence(items) => concat_chars_s(
            items.map_values(|it: SentenceItemModel| item_chars_s(it)),
        ),
        ParagraphModel::Quote(q) => concat_chars_s(q.quote) + q.title + q.author + q.source,
        ParagraphModel::Image(i) => i.title,
    }
}

/// Appends the characters of each piece of `xs` to `out`.
pub(crate) fn push_concat(out: &mut Vec<char>, xs: &Vec<String>)
    ensures
        final(out)@ == old(out)@ + concat_chars_s(xs@.map_values(|x: String| x@)),
{
    let ghost model = xs@.map_values(|x: String| x@);
    let mut i: usize = 0;
    proof {
        assert(model.take(0) =~= Seq::<Seq<char>>::empty());
        assert(out@ =~= old(out)@ + concat_chars_s(model.take(0)));
    }
    while i < xs.len()
        invariant
            0 <= i <= xs@.len(),
            model == xs@.map_values(|x: String| x@),
            out@ =~= old(out)@ + concat_chars_s(model.take(i as int)),
        decreases xs@.len() - i,
    {
        let c = to_chars(xs[i].as_str());
        assert(c@ == model[i as int]);
        crate::text::append_vec(out, &c);
        proof {
            lemma_concat_take(model, i as int);
        }
        i += 1;
    }
    proof {
        assert(model.take(model.len() as int) =~= model);
    }
}

impl Paragraph {
    /// The plain characters this paragraph carries.
    pub fn get_chars(&self) -> (r: Vec<char>)
        ensures
            r@ == par_chars_s(self@),
    {
        match self {
            Paragraph::Sentence { s } => {
                let ghost model = s@.map_values(|it: SentenceItem| it@).map_values(
                    |it: SentenceItemModel| item_chars_s(it),
                );
                let mut r: Vec<char> = Vec::new();
                let mut i: usize = 0;
                proof {
                    assert(model.take(0) =~= Seq::<Seq<char>>::empty());
                    assert(r@ =~= concat_chars_s(model.take(0)));
                }
                while i < s.len()
                    invariant
                        0 <= i <= s@.len(),
                        model == s@.map_values(|it: SentenceItem| it@).map_values(
                            |it: SentenceItemModel| item_chars_s(it),
                        ),
                        model.len() == s@.len(),
                        r@ =~= concat_chars_s(model.take(i as int)),
                    decreases s@.len() - i,
                {
                    let piece = match &s[i] {
                        SentenceItem::Text { text } => to_chars(text.as_str()),
                        SentenceItem::Link { l } => to_chars(l.text.as_str()),
                        SentenceItem::Footnote { id } => to_chars(id.as_str()),
                    };
                    assert(piece@ == model[i as int]);
                    crate::text::append_vec(&mut r, &piece);
                    proof {
                        lemma_concat_take(model, i as int);
                    }
                    i += 1;
                }
                proof {
                    assert(model.take(model.len() as int) =~= model);
                }
                r
            },
            Paragraph::Quote { q } => {
                let mut r: Vec<char> = Vec::new();
                push_concat(&mut r, &q.quote);
                let t = to_chars(q.title.as_str());
                crate::text::append_vec(&mut r, &t);
                let a = to_chars(q.author.as_str());
                crate::text::append_vec(&mut r, &a);
                let so = to_chars(q.source.as_str());
                crate::text::append_vec(&mut r, &so);
                assert(r@ =~= par_chars_s(self@));
                r
            },
            Paragraph::Image { i } => {
                let r = to_chars(i.title.as_str());
                r
            },
        }
    }
}


/// Re-parsing identical raw input yields a structurally identical
/// document tree: the parse is a function of the text alone.
pub proof fn lemma_parse_deterministic(s: Seq<char>, a: ArticleModel, b: ArticleModel)
    requires
        a == article_parse_s(s),
        b == article_parse_s(s),
    ensures
        a == b,
{
}

} // verus!
