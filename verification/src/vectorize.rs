//! The vectorizer: per language partition, every document is tokenized by
//! whitespace, short and bracketed tokens are dropped, a vocabulary is
//! built from all surviving tokens in ascending lexicographic order, and
//! each document becomes the sequence of its tokens' vocabulary indices.
use vstd::prelude::*;
use crate::text::{eq_chars, subrange_vec};
use crate::split::{to_chars, tokens, tokens_s};
use crate::quote::{keep_lines_s, lemma_keep_step};
use crate::article::{article_parse_s, article_type_s, parse_article, ArticleModel, ArticleType, ParsedArticle};

verus! {

/// Strict lexicographic order on character sequences, by code point; the
/// order `str`'s `Ord` gives.
pub open spec fn lex_lt_s(a: Seq<char>, b: Seq<char>) -> bool
    decreases a.len(),
{
    if b.len() == 0 {
        false
    } else if a.len() == 0 {
        true
    } else if (a[0] as u32) < (b[0] as u32) {
        true
    } else if (a[0] as u32) > (b[0] as u32) {
        false
    } else {
        lex_lt_s(a.drop_first(), b.drop_first())
    }
}

/// The exec mirror of `lex_lt_s`.
pub fn lex_lt(a: &Vec<char>, b: &Vec<char>) -> (r: bool)
    ensures
        r == lex_lt_s(a@, b@),
{
    let mut i: usize = 0;
    proof {
        assert(a@.skip(0) =~= a@);
        assert(b@.skip(0) =~= b@);
    }
    loop
        invariant
            i <= a@.len(),
            i <= b@.len(),
            lex_lt_s(a@, b@) == lex_lt_s(a@.skip(i as int), b@.skip(i as int)),
        decreases a@.len() - i,
    {
        let ghost sa = a@.skip(i as int);
        let ghost sb = b@.skip(i as int);
        if i >= b.len() {
            assert(sb.len() == 0);
            return false;
        }
        if i >= a.len() {
            assert(sa.len() == 0 && sb.len() > 0);
            return true;
        }
        proof {
            assert(sa[0] == a@[i as int]);
            assert(sb[0] == b@[i as int]);
        }
        let ca = a[i] as u32;
        let cb = b[i] as u32;
        if ca < cb {
            return true;
        }
        if ca > cb {
            return false;
        }
        proof {
            assert(sa.drop_first() =~= a@.skip(i + 1));
            assert(sb.drop_first() =~= b@.skip(i + 1));
        }
        i += 1;
    }
}

/// Two characters with one code point are one character.
proof fn lemma_char_cast_inj(x: char, y: char)
    requires
        x as u32 == y as u32,
    ensures
        x == y,
{
}

/// Strict lexicographic order is trichotomous with equality.
pub proof fn lemma_lex_connected(a: Seq<char>, b: Seq<char>)
    ensures
        lex_lt_s(a, b) || lex_lt_s(b, a) || a == b,
    decreases a.len(),
{
    if a.len() > 0 && b.len() > 0 {
        if (a[0] as u32) == (b[0] as u32) {
            lemma_char_cast_inj(a[0], b[0]);
            lemma_lex_connected(a.drop_first(), b.drop_first());
            if !lex_lt_s(a, b) && !lex_lt_s(b, a) {
                assert(a.drop_first() == b.drop_first());
                assert(a =~= seq![a[0]] + a.drop_first());
                assert(b =~= seq![b[0]] + b.drop_first());
            }
        }
    }
}

/// Strict lexicographic order is transitive.
pub proof fn lemma_lex_trans(a: Seq<char>, b: Seq<char>, c: Seq<char>)
    requires
        lex_lt_s(a, b),
        lex_lt_s(b, c),
    ensures
        lex_lt_s(a, c),
    decreases a.len(),
{
    if a.len() > 0 && b.len() > 0 && c.len() > 0 {
        if (a[0] as u32) == (b[0] as u32) && (b[0] as u32) == (c[0] as u32) {
            lemma_lex_trans(a.drop_first(), b.drop_first(), c.drop_first());
        }
    }
}

/// Strict lexicographic order is irreflexive, hence asymmetric.
pub proof fn lemma_lex_irrefl(a: Seq<char>)
    ensures
        !lex_lt_s(a, a),
    decreases a.len(),
{
    if a.len() > 0 {
        lemma_lex_irrefl(a.drop_first());
    }
}

/// The UTF-8 width of one character.
pub open spec fn utf8_len_s(c: char) -> int {
    if (c as u32) < 0x80 {
        1
    } else if (c as u32) < 0x800 {
        2
    } else if (c as u32) < 0x10000 {
        3
    } else {
        4
    }
}

/// The UTF-8 byte length of a token.
pub open spec fn byte_len_s(t: Seq<char>) -> int
    decreases t.len(),
{
    if t.len() == 0 {
        0
    } else {
        utf8_len_s(t[0]) + byte_len_s(t.drop_first())
    }
}

/// A token survives when it is at least three bytes long and carries no
/// bracket.
pub open spec fn keep_word_s(t: Seq<char>) -> bool {
    byte_len_s(t) >= 3 && !t.contains('[') && !t.contains(']')
}

/// The surviving tokens of a raw text, in order.
pub open spec fn words_of_s(s: Seq<char>) -> Seq<Seq<char>> {
    keep_lines_s(tokens_s(s), |t: Seq<char>| keep_word_s(t))
}

proof fn lemma_byte_len_bounds(t: Seq<char>)
    ensures
        t.len() <= byte_len_s(t) <= 4 * t.len(),
    decreases t.len(),
{
    if t.len() > 0 {
        lemma_byte_len_bounds(t.drop_first());
    }
}

/// Whether this token survives the filter.
fn keep_word(t: &Vec<char>) -> (r: bool)
    ensures
        r == keep_word_s(t@),
{
    proof {
        lemma_byte_len_bounds(t@);
    }
    let n = t.len();
    // count bytes only up to the threshold, so the sum stays small
    let mut bytes: usize = 0;
    let mut i: usize = 0;
    while i < n && bytes < 3
        invariant
            0 <= i <= n == t@.len(),
            bytes == byte_len_s(t@.take(i as int)),
            bytes <= 6,
        decreases n - i,
    {
        let c = t[i] as u32;
        let w: usize = if c < 0x80 {
            1
        } else if c < 0x800 {
            2
        } else if c < 0x10000 {
            3
        } else {
            4
        };
        proof {
            lemma_byte_len_take(t@, i as int);
        }
        bytes += w;
        i += 1;
    }
    proof {
        lemma_byte_len_mono(t@, i as int);
        assert(t@.take(n as int) =~= t@);
        if bytes >= 3 {
            assert(byte_len_s(t@) >= 3);
        } else {
            assert(i == n);
            assert(byte_len_s(t@) < 3);
        }
    }
    let long_enough = bytes >= 3;
    let mut has_bracket: bool = false;
    let mut i: usize = 0;
    while i < n
        invariant
            0 <= i <= n == t@.len(),
            has_bracket == (exists|j: int| 0 <= j < i && (t@[j] == '[' || t@[j] == ']')),
        decreases n - i,
    {
        if t[i] == '[' || t[i] == ']' {
            has_bracket = true;
        }
        i += 1;
    }
    proof {
        if has_bracket {
            assert(t@.contains('[') || t@.contains(']'));
        } else {
            assert(!t@.contains('[')) by {
                if t@.contains('[') {
                    let j = choose|j: int| 0 <= j < t@.len() && t@[j] == '[';
                    assert(t@[j] == '[' || t@[j] == ']');
                }
            }
            assert(!t@.contains(']')) by {
                if t@.contains(']') {
                    let j = choose|j: int| 0 <= j < t@.len() && t@[j] == ']';
                    assert(t@[j] == '[' || t@[j] == ']');
                }
            }
        }
    }
    long_enough && !has_bracket
}

/// Byte length never shrinks as the prefix grows.
proof fn lemma_byte_len_mono(t: Seq<char>, i: int)
    requires
        0 <= i <= t.len(),
    ensures
        byte_len_s(t) >= byte_len_s(t.take(i)),
    decreases t.len() - i,
{
    if i < t.len() {
        lemma_byte_len_take(t, i);
        lemma_byte_len_mono(t, i + 1);
    } else {
        assert(t.take(i) =~= t);
    }
}

/// One step of `byte_len_s` over a prefix.
proof fn lemma_byte_len_take(t: Seq<char>, i: int)
    requires
        0 <= i < t.len(),
    ensures
        byte_len_s(t.take(i + 1)) == byte_len_s(t.take(i)) + utf8_len_s(t[i]),
    decreases i,
{
    if i == 0 {
        assert(t.take(1) =~= seq![t[0]]);
        assert(t.take(1).drop_first() =~= t.take(0));
    } else {
        lemma_byte_len_take(t.drop_first(), i - 1);
        assert(t.take(i + 1).drop_first() =~= t.drop_first().take(i));
        assert(t.take(i).drop_first() =~= t.drop_first().take(i - 1));
        assert(t.drop_first()[i - 1] == t[i]);
    }
}

/// The surviving tokens of a raw text.
pub fn words_of(s: &str) -> (r: Vec<Vec<char>>)
    ensures
        r@.map_values(|t: Vec<char>| t@) == words_of_s(s@),
{
    let v = to_chars(s);
    let toks = tokens(&v);
    let ghost model = tokens_s(v@);
    let ghost p = |t: Seq<char>| keep_word_s(t);
    let mut out: Vec<Vec<char>> = Vec::new();
    let mut i: usize = 0;
    proof {
        assert(model.skip(0) =~= model);
    }
    while i < toks.len()
        invariant
            0 <= i <= toks@.len(),
            toks@.map_values(|t: Vec<char>| t@) == model,
            p == (|t: Seq<char>| keep_word_s(t)),
            out@.map_values(|t: Vec<char>| t@) + keep_lines_s(model.skip(i as int), p)
                =~~= keep_lines_s(model, p),
        decreases toks@.len() - i,
    {
        proof {
            lemma_keep_step(model, p, i as int);
        }
        let t = subrange_vec(&toks[i], 0, toks[i].len());
        assert(t@ =~= model[i as int]);
        if keep_word(&t) {
            assert(p(model[i as int]));
            out.push(t);
        } else {
            assert(!p(model[i as int]));
        }
        assert(out@.map_values(|t: Vec<char>| t@) + keep_lines_s(model.skip(i + 1), p)
            =~~= keep_lines_s(model, p));
        i += 1;
    }
    proof {
        assert(model.skip(model.len() as int) =~= Seq::<Seq<char>>::empty());
        assert(out@.map_values(|t: Vec<char>| t@) =~~= keep_lines_s(model, p));
    }
    out
}

/// Inserts a word into an ascending vocabulary, keeping it deduplicated:
/// it lands before the first entry it is not beyond, unless that entry
/// already equals it.
pub open spec fn insert_word_s(v: Seq<Seq<char>>, w: Seq<char>) -> Seq<Seq<char>>
    decreases v.len(),
{
    if v.len() == 0 {
        seq![w]
    } else if v[0] == w {
        v
    } else if lex_lt_s(w, v[0]) {
        seq![w] + v
    } else {
        seq![v[0]] + insert_word_s(v.drop_first(), w)
    }
}

/// Folds a run of words into the vocabulary, left to right.
pub open spec fn insert_words_s(v: Seq<Seq<char>>, ws: Seq<Seq<char>>) -> Seq<Seq<char>>
    decreases ws.len(),
{
    if ws.len() == 0 {
        v
    } else {
        insert_words_s(insert_word_s(v, ws[0]), ws.drop_first())
    }
}

/// The vocabulary of a partition: every surviving token of every text,
/// in ascending lexicographic order, each once.
pub open spec fn vocab_of_texts_s(texts: Seq<Seq<char>>) -> Seq<Seq<char>>
    decreases texts.len(),
{
    if texts.len() == 0 {
        seq![]
    } else {
        insert_words_s(vocab_of_texts_s(texts.drop_last()), words_of_s(texts.last()))
    }
}

/// The exec mirror of `insert_word_s`.
fn insert_word(v: &mut Vec<Vec<char>>, w: Vec<char>)
    ensures
        final(v)@.map_values(|t: Vec<char>| t@) == insert_word_s(
            old(v)@.map_values(|t: Vec<char>| t@),
            w@,
        ),
{
    let ghost model = old(v)@.map_values(|t: Vec<char>| t@);
    let mut i: usize = 0;
    proof {
        assert(model.skip(0) =~= model);
        assert(model.take(0) =~= Seq::<Seq<char>>::empty());
    }
    while i < v.len()
        invariant
            0 <= i <= v@.len(),
            v@.map_values(|t: Vec<char>| t@) == model,
            insert_word_s(model, w@) =~~= model.take(i as int) + insert_word_s(
                model.skip(i as int),
                w@,
            ),
        decreases v@.len() - i,
    {
        let ghost at = model.skip(i as int);
        proof {
            assert(at[0] == model[i as int]);
            assert(at.drop_first() =~= model.skip(i + 1));
        }
        if eq_chars(&v[i], &w) {
            assert(at[0] == w@);
            assert(insert_word_s(at, w@) =~= at);
            proof {
                assert(model.take(i as int) + model.skip(i as int) =~= model);
            }
            assert(v@.map_values(|t: Vec<char>| t@) =~~= insert_word_s(model, w@));
            return ;
        }
        if lex_lt(&w, &v[i]) {
            assert(insert_word_s(at, w@) =~= seq![w@] + at);
            v.insert(i, w);
            proof {
                assert(v@.map_values(|t: Vec<char>| t@) =~~= model.take(i as int) + (seq![w@]
                    + model.skip(i as int)));
            }
            return ;
        }
        proof {
            assert(insert_word_s(at, w@) =~= seq![at[0]] + insert_word_s(at.drop_first(), w@));
            assert(model.take(i + 1) =~= model.take(i as int) + seq![model[i as int]]);
            assert(insert_word_s(model, w@) =~~= model.take(i + 1) + insert_word_s(
                model.skip(i + 1),
                w@,
            ));
        }
        i += 1;
    }
    proof {
        assert(model.skip(model.len() as int) =~= Seq::<Seq<char>>::empty());
        assert(insert_word_s(Seq::<Seq<char>>::empty(), w@) =~= seq![w@]);
        assert(model.take(model.len() as int) =~= model);
    }
    v.push(w);
    assert(v@.map_values(|t: Vec<char>| t@) =~~= insert_word_s(model, w@));
}

/// Folds one text's words into the vocabulary.
fn insert_words(v: &mut Vec<Vec<char>>, ws: &Vec<Vec<char>>)
    ensures
        final(v)@.map_values(|t: Vec<char>| t@) == insert_words_s(
            old(v)@.map_values(|t: Vec<char>| t@),
            ws@.map_values(|t: Vec<char>| t@),
        ),
{
    let ghost model0 = old(v)@.map_values(|t: Vec<char>| t@);
    let ghost wsm = ws@.map_values(|t: Vec<char>| t@);
    let mut i: usize = 0;
    proof {
        assert(wsm.skip(0) =~= wsm);
    }
    while i < ws.len()
        invariant
            0 <= i <= ws@.len(),
            wsm == ws@.map_values(|t: Vec<char>| t@),
            insert_words_s(model0, wsm) == insert_words_s(
                v@.map_values(|t: Vec<char>| t@),
                wsm.skip(i as int),
            ),
        decreases ws@.len() - i,
    {
        let ghost at = wsm.skip(i as int);
        proof {
            assert(at[0] == wsm[i as int]);
            assert(at.drop_first() =~= wsm.skip(i + 1));
        }
        let w = subrange_vec(&ws[i], 0, ws[i].len());
        assert(w@ =~= wsm[i as int]);
        insert_word(v, w);
        i += 1;
    }
    proof {
        assert(wsm.skip(wsm.len() as int) =~= Seq::<Seq<char>>::empty());
    }
}


/// Strictly ascending: the vocabulary order.
pub open spec fn vocab_sorted_s(v: Seq<Seq<char>>) -> bool {
    forall|i: int, j: int| 0 <= i < j < v.len() ==> lex_lt_s(#[trigger] v[i], #[trigger] v[j])
}

/// What one insertion holds: the word and the old entries, nothing else.
proof fn lemma_insert_word_membership(v: Seq<Seq<char>>, w: Seq<char>)
    ensures
        forall|x: Seq<char>|
            #[trigger] insert_word_s(v, w).contains(x) <==> (v.contains(x) || x == w),
    decreases v.len(),
{
    let r = insert_word_s(v, w);
    if v.len() == 0 {
        assert(r =~= seq![w]);
        assert forall|x: Seq<char>| #[trigger] r.contains(x) implies (v.contains(x) || x == w) by {
            let k = choose|k: int| 0 <= k < r.len() && r[k] == x;
            assert(r[0] == w);
        }
        assert forall|x: Seq<char>| (v.contains(x) || x == w) implies #[trigger] r.contains(x) by {
            if x == w {
                assert(r[0] == x);
            }
        }
    } else if v[0] == w {
    } else if lex_lt_s(w, v[0]) {
        assert(r =~= seq![w] + v);
        assert forall|x: Seq<char>| #[trigger] r.contains(x) implies (v.contains(x) || x == w) by {
            let k = choose|k: int| 0 <= k < r.len() && r[k] == x;
            if k > 0 {
                assert(v[k - 1] == x);
                assert(v.contains(x));
            } else {
                assert(r[0] == w);
            }
        }
        assert forall|x: Seq<char>| (v.contains(x) || x == w) implies #[trigger] r.contains(x) by {
            if x == w {
                assert(r[0] == x);
            } else {
                let k = choose|k: int| 0 <= k < v.len() && v[k] == x;
                assert(r[k + 1] == x);
            }
        }
    } else {
        let d = v.drop_first();
        lemma_insert_word_membership(d, w);
        let rd = insert_word_s(d, w);
        assert(r =~= seq![v[0]] + rd);
        assert forall|x: Seq<char>| #[trigger] r.contains(x) implies (v.contains(x) || x == w) by {
            let k = choose|k: int| 0 <= k < r.len() && r[k] == x;
            if k == 0 {
                assert(v[0] == x);
                assert(v.contains(x));
            } else {
                assert(rd[k - 1] == x);
                assert(rd.contains(x));
                if x != w {
                    assert(d.contains(x));
                    let u = choose|u: int| 0 <= u < d.len() && d[u] == x;
                    assert(v[u + 1] == x);
                    assert(v.contains(x));
                }
            }
        }
        assert forall|x: Seq<char>| (v.contains(x) || x == w) implies #[trigger] r.contains(x) by {
            if x == w || d.contains(x) {
                assert(rd.contains(x));
                let u = choose|u: int| 0 <= u < rd.len() && rd[u] == x;
                assert(r[u + 1] == x);
            } else {
                let k = choose|k: int| 0 <= k < v.len() && v[k] == x;
                if k == 0 {
                    assert(r[0] == x);
                } else {
                    assert(d[k - 1] == x);
                    assert(d.contains(x));
                }
            }
        }
    }
}

/// Insertion keeps the vocabulary strictly ascending.
proof fn lemma_insert_word_sorted(v: Seq<Seq<char>>, w: Seq<char>)
    requires
        vocab_sorted_s(v),
    ensures
        vocab_sorted_s(insert_word_s(v, w)),
    decreases v.len(),
{
    let r = insert_word_s(v, w);
    if v.len() == 0 {
    } else if v[0] == w {
    } else if lex_lt_s(w, v[0]) {
        assert(r =~= seq![w] + v);
        assert forall|i: int, j: int| 0 <= i < j < r.len() implies lex_lt_s(
            #[trigger] r[i],
            #[trigger] r[j],
        ) by {
            if i == 0 {
                assert(r[j] == v[j - 1]);
                if j - 1 > 0 {
                    assert(lex_lt_s(v[0], v[j - 1]));
                    lemma_lex_trans(w, v[0], v[j - 1]);
                }
            } else {
                assert(r[i] == v[i - 1] && r[j] == v[j - 1]);
            }
        }
    } else {
        let d = v.drop_first();
        assert forall|i: int, j: int| 0 <= i < j < d.len() implies lex_lt_s(
            #[trigger] d[i],
            #[trigger] d[j],
        ) by {
            assert(d[i] == v[i + 1] && d[j] == v[j + 1]);
        }
        lemma_insert_word_sorted(d, w);
        lemma_insert_word_membership(d, w);
        lemma_lex_connected(w, v[0]);
        assert(lex_lt_s(v[0], w));
        let rd = insert_word_s(d, w);
        assert(r =~= seq![v[0]] + rd);
        assert forall|i: int, j: int| 0 <= i < j < r.len() implies lex_lt_s(
            #[trigger] r[i],
            #[trigger] r[j],
        ) by {
            if i == 0 {
                assert(r[j] == rd[j - 1]);
                assert(rd.contains(rd[j - 1]));
                if rd[j - 1] == w {
                } else {
                    assert(d.contains(rd[j - 1]));
                    let u = choose|u: int| 0 <= u < d.len() && d[u] == rd[j - 1];
                    assert(d[u] == v[u + 1]);
                    assert(lex_lt_s(v[0], v[u + 1]));
                }
            } else {
                assert(r[i] == rd[i - 1] && r[j] == rd[j - 1]);
            }
        }
    }
}

/// Folding a word run keeps the vocabulary ascending and adds exactly the
/// run's words.
proof fn lemma_insert_words_props(v: Seq<Seq<char>>, ws: Seq<Seq<char>>)
    requires
        vocab_sorted_s(v),
    ensures
        vocab_sorted_s(insert_words_s(v, ws)),
        forall|x: Seq<char>|
            #[trigger] insert_words_s(v, ws).contains(x) <==> (v.contains(x) || ws.contains(x)),
    decreases ws.len(),
{
    let r = insert_words_s(v, ws);
    if ws.len() == 0 {
        assert forall|x: Seq<char>| #[trigger] r.contains(x) implies (v.contains(x)
            || ws.contains(x)) by {}
    } else {
        let v1 = insert_word_s(v, ws[0]);
        lemma_insert_word_sorted(v, ws[0]);
        lemma_insert_word_membership(v, ws[0]);
        lemma_insert_words_props(v1, ws.drop_first());
        let d = ws.drop_first();
        assert forall|x: Seq<char>| #[trigger] r.contains(x) implies (v.contains(x)
            || ws.contains(x)) by {
            assert(insert_words_s(v1, d).contains(x));
            if v1.contains(x) {
                if x == ws[0] {
                    assert(ws.contains(x));
                }
            } else {
                assert(d.contains(x));
                let u = choose|u: int| 0 <= u < d.len() && d[u] == x;
                assert(ws[u + 1] == x);
                assert(ws.contains(x));
            }
        }
        assert forall|x: Seq<char>| (v.contains(x) || ws.contains(x)) implies #[trigger] r.contains(
            x,
        ) by {
            if v.contains(x) {
                assert(v1.contains(x));
                assert(insert_words_s(v1, d).contains(x));
            } else {
                let k = choose|k: int| 0 <= k < ws.len() && ws[k] == x;
                if k == 0 {
                    assert(v1.contains(x));
                    assert(insert_words_s(v1, d).contains(x));
                } else {
                    assert(d[k - 1] == x);
                    assert(d.contains(x));
                    assert(insert_words_s(v1, d).contains(x));
                }
            }
        }
    }
}

/// The vocabulary of a partition is strictly ascending and holds exactly
/// the surviving tokens of the partition's texts.
pub proof fn lemma_vocab_of_texts(texts: Seq<Seq<char>>)
    ensures
        vocab_sorted_s(vocab_of_texts_s(texts)),
        forall|x: Seq<char>|
            #[trigger] vocab_of_texts_s(texts).contains(x) <==> exists|d: int|
                0 <= d < texts.len() && words_of_s(#[trigger] texts[d]).contains(x),
    decreases texts.len(),
{
    let r = vocab_of_texts_s(texts);
    if texts.len() == 0 {
        assert forall|x: Seq<char>| #[trigger] r.contains(x) implies exists|d: int|
            0 <= d < texts.len() && words_of_s(#[trigger] texts[d]).contains(x) by {
            let k = choose|k: int| 0 <= k < r.len() && r[k] == x;
        }
    } else {
        let dl = texts.drop_last();
        lemma_vocab_of_texts(dl);
        lemma_insert_words_props(vocab_of_texts_s(dl), words_of_s(texts.last()));
        assert forall|x: Seq<char>| #[trigger] r.contains(x) implies exists|d: int|
            0 <= d < texts.len() && words_of_s(#[trigger] texts[d]).contains(x) by {
            if vocab_of_texts_s(dl).contains(x) {
                let d = choose|d: int|
                    0 <= d < dl.len() && words_of_s(#[trigger] dl[d]).contains(x);
                assert(texts[d] == dl[d]);
                assert(words_of_s(texts[d]).contains(x));
            } else {
                assert(words_of_s(texts.last()).contains(x));
                assert(texts[texts.len() - 1] == texts.last());
            }
        }
        assert forall|x: Seq<char>|
            (exists|d: int|
                0 <= d < texts.len() && words_of_s(#[trigger] texts[d]).contains(x)) implies #[
            trigger] r.contains(x) by {
            let d = choose|d: int|
                0 <= d < texts.len() && words_of_s(#[trigger] texts[d]).contains(x);
            if d < texts.len() - 1 {
                assert(dl[d] == texts[d]);
                assert(vocab_of_texts_s(dl).contains(x));
            } else {
                assert(words_of_s(texts.last()).contains(x));
            }
        }
    }
}

/// Two strictly ascending runs with the same members are one run: the
/// vocabulary is determined by the word set alone.
pub proof fn lemma_sorted_unique_equal(v1: Seq<Seq<char>>, v2: Seq<Seq<char>>)
    requires
        vocab_sorted_s(v1),
        vocab_sorted_s(v2),
        forall|x: Seq<char>| v1.contains(x) <==> v2.contains(x),
    ensures
        v1 == v2,
    decreases v1.len(),
{
    if v1.len() == 0 {
        if v2.len() > 0 {
            assert(v2.contains(v2[0]));
            assert(v1.contains(v2[0]));
            let k = choose|k: int| 0 <= k < v1.len() && v1[k] == v2[0];
        }
        assert(v1 =~= v2);
    } else if v2.len() == 0 {
        assert(v1.contains(v1[0]));
        assert(v2.contains(v1[0]));
        let k = choose|k: int| 0 <= k < v2.len() && v2[k] == v1[0];
    } else {
        // the heads are both the least member, so they are equal
        assert(v1.contains(v1[0]));
        assert(v2.contains(v2[0]));
        assert(v2.contains(v1[0]));
        assert(v1.contains(v2[0]));
        let k1 = choose|k: int| 0 <= k < v2.len() && v2[k] == v1[0];
        let k2 = choose|k: int| 0 <= k < v1.len() && v1[k] == v2[0];
        if v1[0] != v2[0] {
            assert(k1 > 0);
            assert(lex_lt_s(v2[0], v2[k1]));
            assert(k2 > 0);
            assert(lex_lt_s(v1[0], v1[k2]));
            lemma_lex_trans(v1[0], v2[0], v1[0]);
            lemma_lex_irrefl(v1[0]);
        }
        let d1 = v1.drop_first();
        let d2 = v2.drop_first();
        assert forall|i: int, j: int| 0 <= i < j < d1.len() implies lex_lt_s(
            #[trigger] d1[i],
            #[trigger] d1[j],
        ) by {
            assert(d1[i] == v1[i + 1] && d1[j] == v1[j + 1]);
        }
        assert forall|i: int, j: int| 0 <= i < j < d2.len() implies lex_lt_s(
            #[trigger] d2[i],
            #[trigger] d2[j],
        ) by {
            assert(d2[i] == v2[i + 1] && d2[j] == v2[j + 1]);
        }
        assert forall|x: Seq<char>| d1.contains(x) implies d2.contains(x) by {
            lemma_tail_member(v1, v2, x);
        }
        assert forall|x: Seq<char>| d2.contains(x) implies d1.contains(x) by {
            lemma_tail_member(v2, v1, x);
        }
        lemma_sorted_unique_equal(d1, d2);
        assert(v1 =~= seq![v1[0]] + d1);
        assert(v2 =~= seq![v2[0]] + d2);
    }
}

/// A member of one ascending run's tail is a member of the other's tail.
proof fn lemma_tail_member(a: Seq<Seq<char>>, b: Seq<Seq<char>>, x: Seq<char>)
    requires
        a.len() > 0,
        b.len() > 0,
        a[0] == b[0],
        vocab_sorted_s(a),
        vocab_sorted_s(b),
        forall|y: Seq<char>| a.contains(y) <==> b.contains(y),
        a.drop_first().contains(x),
    ensures
        b.drop_first().contains(x),
{
    let k = choose|k: int| 0 <= k < a.drop_first().len() && a.drop_first()[k] == x;
    assert(a[k + 1] == x);
    assert(a.contains(x));
    assert(b.contains(x));
    let u = choose|u: int| 0 <= u < b.len() && b[u] == x;
    if u == 0 {
        // then x would equal the shared head, yet it lies beyond a's head
        assert(lex_lt_s(a[0], a[k + 1]));
        lemma_lex_irrefl(a[0]);
    } else {
        assert(b.drop_first()[u - 1] == x);
    }
}

/// First index of `w` in the vocabulary.
pub open spec fn find_word_s(v: Seq<Seq<char>>, w: Seq<char>) -> Option<int>
    decreases v.len(),
{
    if v.len() == 0 {
        None
    } else if v[0] == w {
        Some(0)
    } else {
        match find_word_s(v.drop_first(), w) {
            Some(i) => Some(i + 1),
            None => None,
        }
    }
}

/// The word vector of one text against a vocabulary: each surviving token
/// mapped to its index, tokens without an entry dropped.
pub open spec fn embed_s(vocab: Seq<Seq<char>>, ws: Seq<Seq<char>>) -> Seq<int>
    decreases ws.len(),
{
    if ws.len() == 0 {
        seq![]
    } else {
        match find_word_s(vocab, ws[0]) {
            Some(i) => seq![i] + embed_s(vocab, ws.drop_first()),
            None => embed_s(vocab, ws.drop_first()),
        }
    }
}

/// First index of `w` in the vocabulary, by scan.
fn find_word(vocab: &Vec<Vec<char>>, w: &Vec<char>) -> (r: Option<usize>)
    ensures
        match r {
            Some(i) => find_word_s(vocab@.map_values(|t: Vec<char>| t@), w@) == Some(i as int),
            None => find_word_s(vocab@.map_values(|t: Vec<char>| t@), w@) is None,
        },
{
    let ghost model = vocab@.map_values(|t: Vec<char>| t@);
    proof {
        lemma_find_word_first(model, w@);
    }
    let mut i: usize = 0;
    while i < vocab.len()
        invariant
            0 <= i <= vocab@.len(),
            model == vocab@.map_values(|t: Vec<char>| t@),
            forall|j: int| 0 <= j < i ==> model[j] != w@,
        decreases vocab@.len() - i,
    {
        if eq_chars(&vocab[i], w) {
            assert(model[i as int] == w@);
            return Some(i);
        }
        i += 1;
    }
    None
}

/// `find_word_s` finds exactly the first equal entry.
proof fn lemma_find_word_first(v: Seq<Seq<char>>, w: Seq<char>)
    ensures
        match find_word_s(v, w) {
            Some(i) => 0 <= i < v.len() && v[i] == w && forall|j: int| 0 <= j < i ==> v[j] != w,
            None => forall|j: int| 0 <= j < v.len() ==> v[j] != w,
        },
    decreases v.len(),
{
    if v.len() > 0 && v[0] != w {
        lemma_find_word_first(v.drop_first(), w);
        let d = v.drop_first();
        match find_word_s(d, w) {
            Some(i) => {
                assert(v[i + 1] == d[i]);
                assert forall|j: int| 0 <= j < i + 1 implies v[j] != w by {
                    if j > 0 {
                        assert(d[j - 1] != w);
                    }
                }
            },
            None => {
                assert forall|j: int| 0 <= j < v.len() implies v[j] != w by {
                    if j > 0 {
                        assert(d[j - 1] != w);
                    }
                }
            },
        }
    }
}

/// Embeds one text's words against the vocabulary.
fn embed(vocab: &Vec<Vec<char>>, ws: &Vec<Vec<char>>) -> (r: Vec<usize>)
    ensures
        r@.map_values(|u: usize| u as int) == embed_s(
            vocab@.map_values(|t: Vec<char>| t@),
            ws@.map_values(|t: Vec<char>| t@),
        ),
{
    let ghost vm = vocab@.map_values(|t: Vec<char>| t@);
    let ghost wsm = ws@.map_values(|t: Vec<char>| t@);
    let mut out: Vec<usize> = Vec::new();
    let mut i: usize = 0;
    proof {
        assert(wsm.skip(0) =~= wsm);
    }
    while i < ws.len()
        invariant
            0 <= i <= ws@.len(),
            vm == vocab@.map_values(|t: Vec<char>| t@),
            wsm == ws@.map_values(|t: Vec<char>| t@),
            out@.map_values(|u: usize| u as int) + embed_s(vm, wsm.skip(i as int)) =~= embed_s(
                vm,
                wsm,
            ),
        decreases ws@.len() - i,
    {
        let ghost at = wsm.skip(i as int);
        proof {
            assert(at[0] == wsm[i as int]);
            assert(at.drop_first() =~= wsm.skip(i + 1));
        }
        match find_word(vocab, &ws[i]) {
            Some(idx) => {
                out.push(idx);
                assert(out@.map_values(|u: usize| u as int) + embed_s(vm, wsm.skip(i + 1))
                    =~= embed_s(vm, wsm));
            },
            None => {},
        }
        i += 1;
    }
    proof {
        assert(wsm.skip(wsm.len() as int) =~= Seq::<Seq<char>>::empty());
        assert(out@.map_values(|u: usize| u as int) =~= embed_s(vm, wsm));
    }
    out
}


/// The loaded corpus: per language, per slug, one raw text; both levels
/// ascending by key.
pub struct LoadedArticles {
    pub langs: Vec<(String, Vec<(String, String)>)>,
}

/// One document after vectorization.
pub struct VectorizedArticle {
    pub words: Vec<usize>,
    pub atype: ArticleType,
    pub parsed: ParsedArticle,
}

/// The mathematical view of a `VectorizedArticle`.
pub ghost struct VecArtModel {
    pub words: Seq<int>,
    pub atype: ArticleType,
    pub parsed: ArticleModel,
}

impl View for VectorizedArticle {
    type V = VecArtModel;

    open spec fn view(&self) -> VecArtModel {
        VecArtModel {
            words: self.words@.map_values(|u: usize| u as int),
            atype: self.atype,
            parsed: self.parsed@,
        }
    }
}

/// The vectorized corpus, language and slug order kept.
pub struct VectorizedArticles {
    pub map: Vec<(String, Vec<(String, VectorizedArticle)>)>,
}

pub open spec fn inner_model_s(v: Seq<(String, String)>) -> Seq<(Seq<char>, Seq<char>)> {
    v.map_values(|p: (String, String)| (p.0@, p.1@))
}

impl LoadedArticles {
    /// The corpus as nested key/value sequences.
    pub open spec fn model(&self) -> Seq<(Seq<char>, Seq<(Seq<char>, Seq<char>)>)> {
        self.langs@.map_values(
            |p: (String, Vec<(String, String)>)| (p.0@, inner_model_s(p.1@)),
        )
    }

    /// An empty corpus.
    pub fn new() -> (r: LoadedArticles)
        ensures
            r.model() == Seq::<(Seq<char>, Seq<(Seq<char>, Seq<char>)>)>::empty(),
    {
        let r = LoadedArticles { langs: Vec::new() };
        assert(r.model() =~= Seq::<(Seq<char>, Seq<(Seq<char>, Seq<char>)>)>::empty());
        r
    }
}

/// Inserts into an ascending slug map, replacing an equal key.
pub open spec fn insert_pair_s(
    m: Seq<(Seq<char>, Seq<char>)>,
    k: Seq<char>,
    val: Seq<char>,
) -> Seq<(Seq<char>, Seq<char>)>
    decreases m.len(),
{
    if m.len() == 0 {
        seq![(k, val)]
    } else if m[0].0 == k {
        seq![(k, val)] + m.drop_first()
    } else if lex_lt_s(k, m[0].0) {
        seq![(k, val)] + m
    } else {
        seq![m[0]] + insert_pair_s(m.drop_first(), k, val)
    }
}

/// Inserts into an ascending language map, placing the slug inside the
/// language's own map.
pub open spec fn insert_lang_s(
    m: Seq<(Seq<char>, Seq<(Seq<char>, Seq<char>)>)>,
    lang: Seq<char>,
    slug: Seq<char>,
    content: Seq<char>,
) -> Seq<(Seq<char>, Seq<(Seq<char>, Seq<char>)>)>
    decreases m.len(),
{
    if m.len() == 0 {
        seq![(lang, seq![(slug, content)])]
    } else if m[0].0 == lang {
        seq![(lang, insert_pair_s(m[0].1, slug, content))] + m.drop_first()
    } else if lex_lt_s(lang, m[0].0) {
        seq![(lang, seq![(slug, content)])] + m
    } else {
        seq![m[0]] + insert_lang_s(m.drop_first(), lang, slug, content)
    }
}

/// The exec mirror of `insert_pair_s`.
fn insert_pair(m: Vec<(String, String)>, k: String, val: String) -> (r: Vec<(String, String)>)
    ensures
        inner_model_s(r@) == insert_pair_s(inner_model_s(m@), k@, val@),
{
    let ghost model = inner_model_s(m@);
    let kc = to_chars(k.as_str());
    let mut out: Vec<(String, String)> = Vec::new();
    let mut i: usize = 0;
    proof {
        assert(model.skip(0) =~= model);
        assert(inner_model_s(out@) =~= Seq::<(Seq<char>, Seq<char>)>::empty());
    }
    while i < m.len()
        invariant
            0 <= i <= m@.len(),
            model == inner_model_s(m@),
            kc@ == k@,
            insert_pair_s(model, k@, val@) =~~= inner_model_s(out@) + insert_pair_s(
                model.skip(i as int),
                k@,
                val@,
            ),
            inner_model_s(out@) =~= model.take(i as int),
        decreases m@.len() - i,
    {
        let ghost at = model.skip(i as int);
        proof {
            assert(at[0] == model[i as int]);
            assert(at.drop_first() =~= model.skip(i + 1));
        }
        let ec = to_chars(m[i].0.as_str());
        assert(ec@ == model[i as int].0);
        if eq_chars(&ec, &kc) {
            assert(insert_pair_s(at, k@, val@) =~= seq![(k@, val@)] + at.drop_first());
            out.push((k, val));
            let mut j: usize = i + 1;
            while j < m.len()
                invariant
                    i + 1 <= j <= m@.len(),
                    model == inner_model_s(m@),
                    inner_model_s(out@) =~= model.take(i as int) + seq![(k@, val@)]
                        + model.subrange(i + 1, j as int),
                decreases m@.len() - j,
            {
                let e0 = clone_string(&m[j].0);
                let e1 = clone_string(&m[j].1);
                let ghost prev = inner_model_s(out@);
                let ghost pe = (e0@, e1@);
                out.push((e0, e1));
                proof {
                    assert(inner_model_s(out@) =~~= prev + seq![pe]);
                    assert(pe == model[j as int]);
                    assert(model.subrange(i + 1, j + 1) =~= model.subrange(i + 1, j as int)
                        + seq![model[j as int]]);
                    assert(inner_model_s(out@) =~~= model.take(i as int) + seq![(k@, val@)]
                        + model.subrange(i + 1, j + 1));
                }
                j += 1;
            }
            proof {
                assert(model.subrange(i + 1, model.len() as int) =~= model.skip(i + 1));
                assert(inner_model_s(out@) =~~= insert_pair_s(model, k@, val@));
            }
            return out;
        }
        if lex_lt(&kc, &ec) {
            assert(insert_pair_s(at, k@, val@) =~= seq![(k@, val@)] + at);
            out.push((k, val));
            let mut j: usize = i;
            while j < m.len()
                invariant
                    i <= j <= m@.len(),
                    model == inner_model_s(m@),
                    inner_model_s(out@) =~= model.take(i as int) + seq![(k@, val@)]
                        + model.subrange(i as int, j as int),
                decreases m@.len() - j,
            {
                let e0 = clone_string(&m[j].0);
                let e1 = clone_string(&m[j].1);
                let ghost prev = inner_model_s(out@);
                let ghost pe = (e0@, e1@);
                out.push((e0, e1));
                proof {
                    assert(inner_model_s(out@) =~~= prev + seq![pe]);
                    assert(pe == model[j as int]);
                    assert(model.subrange(i as int, j + 1) =~= model.subrange(i as int, j as int)
                        + seq![model[j as int]]);
                    assert(inner_model_s(out@) =~~= model.take(i as int) + seq![(k@, val@)]
                        + model.subrange(i as int, j + 1));
                }
                j += 1;
            }
            proof {
                assert(model.subrange(i as int, model.len() as int) =~= model.skip(i as int));
                assert(inner_model_s(out@) =~~= insert_pair_s(model, k@, val@));
            }
            return out;
        }
        proof {
            assert(insert_pair_s(at, k@, val@) =~= seq![at[0]] + insert_pair_s(
                at.drop_first(),
                k@,
                val@,
            ));
            assert(model.take(i + 1) =~= model.take(i as int) + seq![model[i as int]]);
        }
        let e0 = clone_string(&m[i].0);
        let e1 = clone_string(&m[i].1);
        out.push((e0, e1));
        assert(inner_model_s(out@) =~~= model.take(i + 1));
        i += 1;
    }
    proof {
        assert(model.skip(model.len() as int) =~= Seq::<(Seq<char>, Seq<char>)>::empty());
        assert(model.take(model.len() as int) =~= model);
    }
    out.push((k, val));
    assert(inner_model_s(out@) =~~= insert_pair_s(model, k@, val@));
    out
}

/// A clone whose characters are the same.
fn clone_string(s: &String) -> (r: String)
    ensures
        r@ == s@,
{
    s.clone()
}

impl LoadedArticles {
    /// Stores one raw text under its language and slug, keeping both
    /// levels ascending; an existing entry for the same pair is replaced.
    pub fn insert(&mut self, lang: String, slug: String, content: String)
        ensures
            final(self).model() == insert_lang_s(old(self).model(), lang@, slug@, content@),
    {
        let ghost model = self.model();
        let lc = to_chars(lang.as_str());
        let mut out: Vec<(String, Vec<(String, String)>)> = Vec::new();
        let n = self.langs.len();
        let mut i: usize = 0;
        proof {
            assert(model.skip(0) =~= model);
            assert((LoadedArticles { langs: out }).model() =~= Seq::<(
                Seq<char>,
                Seq<(Seq<char>, Seq<char>)>,
            )>::empty());
        }
        loop
            invariant
                0 <= i <= n == self.langs@.len(),
                model == self.model(),
                lc@ == lang@,
                (LoadedArticles { langs: out }).model() =~= model.take(i as int),
                forall|j: int| 0 <= j < i ==> (#[trigger] model[j].0) != lang@ && !lex_lt_s(
                    lang@,
                    model[j].0,
                ),
            decreases n - i,
        {
            let ghost at = model.skip(i as int);
            proof {
                if i < n {
                    assert(at[0] == model[i as int]);
                    assert(at.drop_first() =~= model.skip(i + 1));
                }
            }
            if i >= n {
                break ;
            }
            let ec = to_chars(self.langs[i].0.as_str());
            assert(ec@ == model[i as int].0);
            if eq_chars(&ec, &lc) {
                // replace this language's inner map
                let inner = clone_inner(&self.langs[i].1);
                assert(inner_model_s(inner@) == model[i as int].1);
                let inner2 = insert_pair(inner, slug, content);
                out.push((lang, inner2));
                let mut j: usize = i + 1;
                while j < n
                    invariant
                        i + 1 <= j <= n == self.langs@.len(),
                        model == self.model(),
                        (LoadedArticles { langs: out }).model() =~= model.take(i as int) + seq![
                            (
                                lang@,
                                insert_pair_s(model[i as int].1, slug@, content@),
                            ),
                        ] + model.subrange(i + 1, j as int),
                    decreases n - j,
                {
                    let e0 = clone_string(&self.langs[j].0);
                    let e1 = clone_inner(&self.langs[j].1);
                    let ghost prev = (LoadedArticles { langs: out }).model();
                    let ghost pe = (e0@, inner_model_s(e1@));
                    out.push((e0, e1));
                    proof {
                        assert((LoadedArticles { langs: out }).model() =~~= prev + seq![pe]);
                        assert(pe == model[j as int]);
                        assert(model.subrange(i + 1, j + 1) =~= model.subrange(i + 1, j as int)
                            + seq![model[j as int]]);
                        assert((LoadedArticles { langs: out }).model() =~~= model.take(i as int)
                            + seq![
                            (
                                lang@,
                                insert_pair_s(model[i as int].1, slug@, content@),
                            ),
                        ] + model.subrange(i + 1, j + 1));
                    }
                    j += 1;
                }
                proof {
                    assert(model.subrange(i + 1, model.len() as int) =~= model.skip(i + 1));
                    assert(insert_lang_s(at, lang@, slug@, content@) =~= seq![
                        (
                            lang@,
                            insert_pair_s(at[0].1, slug@, content@),
                        ),
                    ] + at.drop_first());
                    lemma_insert_lang_split(model, lang@, slug@, content@, i as int);
                    assert((LoadedArticles { langs: out }).model() =~~= insert_lang_s(
                        model,
                        lang@,
                        slug@,
                        content@,
                    ));
                }
                self.langs = out;
                return ;
            }
            if lex_lt(&lc, &ec) {
                let mut nw: Vec<(String, String)> = Vec::new();
                nw.push((slug, content));
                assert(inner_model_s(nw@) =~= seq![(slug@, content@)]);
                out.push((lang, nw));
                let mut j: usize = i;
                while j < n
                    invariant
                        i <= j <= n == self.langs@.len(),
                        model == self.model(),
                        (LoadedArticles { langs: out }).model() =~= model.take(i as int) + seq![
                            (lang@, seq![(slug@, content@)]),
                        ] + model.subrange(i as int, j as int),
                    decreases n - j,
                {
                    let e0 = clone_string(&self.langs[j].0);
                    let e1 = clone_inner(&self.langs[j].1);
                    let ghost prev = (LoadedArticles { langs: out }).model();
                    let ghost pe = (e0@, inner_model_s(e1@));
                    out.push((e0, e1));
                    proof {
                        assert((LoadedArticles { langs: out }).model() =~~= prev + seq![pe]);
                        assert(pe == model[j as int]);
                        assert(model.subrange(i as int, j + 1) =~= model.subrange(
                            i as int,
                            j as int,
                        ) + seq![model[j as int]]);
                        assert((LoadedArticles { langs: out }).model() =~~= model.take(i as int)
                            + seq![(lang@, seq![(slug@, content@)])] + model.subrange(
                            i as int,
                            j + 1,
                        ));
                    }
                    j += 1;
                }
                proof {
                    assert(model.subrange(i as int, model.len() as int) =~= model.skip(
                        i as int,
                    ));
                    assert(insert_lang_s(at, lang@, slug@, content@) =~= seq![
                        (lang@, seq![(slug@, content@)]),
                    ] + at);
                    lemma_insert_lang_split(model, lang@, slug@, content@, i as int);
                    assert((LoadedArticles { langs: out }).model() =~~= insert_lang_s(
                        model,
                        lang@,
                        slug@,
                        content@,
                    ));
                }
                self.langs = out;
                return ;
            }
            assert(model[i as int].0 != lang@ && !lex_lt_s(lang@, model[i as int].0));
            let e0 = clone_string(&self.langs[i].0);
            let e1 = clone_inner(&self.langs[i].1);
            out.push((e0, e1));
            proof {
                assert(model.take(i + 1) =~= model.take(i as int) + seq![model[i as int]]);
                assert((LoadedArticles { langs: out }).model() =~~= model.take(i + 1));
            }
            i += 1;
        }
        let mut nw: Vec<(String, String)> = Vec::new();
        nw.push((slug, content));
        assert(inner_model_s(nw@) =~= seq![(slug@, content@)]);
        out.push((lang, nw));
        proof {
            assert(model.take(model.len() as int) =~= model);
            lemma_insert_lang_split(model, lang@, slug@, content@, model.len() as int);
            assert(model.skip(model.len() as int) =~= Seq::<(
                Seq<char>,
                Seq<(Seq<char>, Seq<char>)>,
            )>::empty());
            assert((LoadedArticles { langs: out }).model() =~~= insert_lang_s(
                model,
                lang@,
                slug@,
                content@,
            ));
        }
        self.langs = out;
    }
}

/// Unfolds `insert_lang_s` at position `i` when the first `i` keys differ
/// from `lang` and are not beyond it.
proof fn lemma_insert_lang_split(
    m: Seq<(Seq<char>, Seq<(Seq<char>, Seq<char>)>)>,
    lang: Seq<char>,
    slug: Seq<char>,
    content: Seq<char>,
    i: int,
)
    requires
        0 <= i <= m.len(),
        forall|j: int| 0 <= j < i ==> (#[trigger] m[j].0) != lang && !lex_lt_s(lang, m[j].0),
    ensures
        insert_lang_s(m, lang, slug, content) =~~= m.take(i) + insert_lang_s(
            m.skip(i),
            lang,
            slug,
            content,
        ),
    decreases i,
{
    if i == 0 {
        assert(m.take(0) =~= Seq::<(Seq<char>, Seq<(Seq<char>, Seq<char>)>)>::empty());
        assert(m.skip(0) =~= m);
    } else {
        lemma_insert_lang_split(m.drop_first(), lang, slug, content, i - 1);
        assert forall|j: int| 0 <= j < i - 1 implies (#[trigger] m.drop_first()[j].0) != lang
            && !lex_lt_s(lang, m.drop_first()[j].0) by {
            assert(m.drop_first()[j] == m[j + 1]);
        }
        assert(m[0].0 != lang && !lex_lt_s(lang, m[0].0));
        assert(insert_lang_s(m, lang, slug, content) =~= seq![m[0]] + insert_lang_s(
            m.drop_first(),
            lang,
            slug,
            content,
        ));
        assert(m.drop_first().take(i - 1) =~= m.take(i).drop_first());
        assert(m.drop_first().skip(i - 1) =~= m.skip(i));
        assert(seq![m[0]] + m.take(i).drop_first() =~= m.take(i));
    }
}

/// A clone of an inner slug map.
fn clone_inner(v: &Vec<(String, String)>) -> (r: Vec<(String, String)>)
    ensures
        inner_model_s(r@) == inner_model_s(v@),
{
    let mut r: Vec<(String, String)> = Vec::new();
    let mut i: usize = 0;
    while i < v.len()
        invariant
            0 <= i <= v@.len(),
            inner_model_s(r@) =~= inner_model_s(v@).take(i as int),
        decreases v@.len() - i,
    {
        let e0 = clone_string(&v[i].0);
        let e1 = clone_string(&v[i].1);
        r.push((e0, e1));
        assert(inner_model_s(r@) =~= inner_model_s(v@).take(i + 1));
        i += 1;
    }
    assert(inner_model_s(r@) =~= inner_model_s(v@));
    r
}


/// The slug map carries a strictly ascending key run: each slug once.
pub open spec fn inner_wf_s(m: Seq<(Seq<char>, Seq<char>)>) -> bool {
    forall|i: int, j: int|
        0 <= i < j < m.len() ==> lex_lt_s((#[trigger] m[i]).0, (#[trigger] m[j]).0)
}

/// The corpus carries a strictly ascending language run, each language
/// once, and each partition a well-formed slug map.
pub open spec fn corpus_wf_s(m: Seq<(Seq<char>, Seq<(Seq<char>, Seq<char>)>)>) -> bool {
    (forall|i: int, j: int|
        0 <= i < j < m.len() ==> lex_lt_s((#[trigger] m[i]).0, (#[trigger] m[j]).0)) && (forall|
        i: int,
    | 0 <= i < m.len() ==> inner_wf_s((#[trigger] m[i]).1))
}

/// Some entry carries this key.
pub open spec fn has_slug_s(m: Seq<(Seq<char>, Seq<char>)>, x: Seq<char>) -> bool {
    exists|u: int| 0 <= u < m.len() && (#[trigger] m[u]).0 == x
}

pub open spec fn has_lang_s(m: Seq<(Seq<char>, Seq<(Seq<char>, Seq<char>)>)>, x: Seq<char>) -> bool {
    exists|u: int| 0 <= u < m.len() && (#[trigger] m[u]).0 == x
}

/// The keys after a slug insertion: the old keys and the new one.
proof fn lemma_insert_pair_keys(m: Seq<(Seq<char>, Seq<char>)>, k: Seq<char>, val: Seq<char>)
    ensures
        forall|x: Seq<char>|
            #[trigger] has_slug_s(insert_pair_s(m, k, val), x) <==> (has_slug_s(m, x) || x == k),
    decreases m.len(),
{
    let r = insert_pair_s(m, k, val);
    if m.len() == 0 {
        assert forall|x: Seq<char>| #[trigger] has_slug_s(r, x) implies (has_slug_s(m, x) || x
            == k) by {
            let u = choose|u: int| 0 <= u < r.len() && (#[trigger] r[u]).0 == x;
            assert(r[0].0 == k);
        }
        assert forall|x: Seq<char>| (has_slug_s(m, x) || x == k) implies #[trigger] has_slug_s(
            r,
            x,
        ) by {
            if x == k {
                assert(r[0].0 == x);
            }
        }
    } else if m[0].0 == k {
        assert(r =~= seq![(k, val)] + m.drop_first());
        assert forall|x: Seq<char>| #[trigger] has_slug_s(r, x) implies (has_slug_s(m, x) || x
            == k) by {
            let u = choose|u: int| 0 <= u < r.len() && (#[trigger] r[u]).0 == x;
            if u > 0 {
                assert(m[u] == r[u]);
            }
        }
        assert forall|x: Seq<char>| (has_slug_s(m, x) || x == k) implies #[trigger] has_slug_s(
            r,
            x,
        ) by {
            if x == k {
                assert(r[0].0 == x);
            } else {
                let u = choose|u: int| 0 <= u < m.len() && (#[trigger] m[u]).0 == x;
                assert(u > 0);
                assert(r[u].0 == x);
            }
        }
    } else if lex_lt_s(k, m[0].0) {
        assert(r =~= seq![(k, val)] + m);
        assert forall|x: Seq<char>| #[trigger] has_slug_s(r, x) implies (has_slug_s(m, x) || x
            == k) by {
            let u = choose|u: int| 0 <= u < r.len() && (#[trigger] r[u]).0 == x;
            if u > 0 {
                assert(m[u - 1].0 == x);
            }
        }
        assert forall|x: Seq<char>| (has_slug_s(m, x) || x == k) implies #[trigger] has_slug_s(
            r,
            x,
        ) by {
            if x == k {
                assert(r[0].0 == x);
            } else {
                let u = choose|u: int| 0 <= u < m.len() && (#[trigger] m[u]).0 == x;
                assert(r[u + 1].0 == x);
            }
        }
    } else {
        let d = m.drop_first();
        lemma_insert_pair_keys(d, k, val);
        let rd = insert_pair_s(d, k, val);
        assert(r =~= seq![m[0]] + rd);
        assert forall|x: Seq<char>| #[trigger] has_slug_s(r, x) implies (has_slug_s(m, x) || x
            == k) by {
            let u = choose|u: int| 0 <= u < r.len() && (#[trigger] r[u]).0 == x;
            if u == 0 {
                assert(m[0].0 == x);
            } else {
                assert(rd[u - 1].0 == x);
                assert(has_slug_s(rd, x));
                if x != k {
                    assert(has_slug_s(d, x));
                    let w = choose|w: int| 0 <= w < d.len() && (#[trigger] d[w]).0 == x;
                    assert(m[w + 1].0 == x);
                }
            }
        }
        assert forall|x: Seq<char>| (has_slug_s(m, x) || x == k) implies #[trigger] has_slug_s(
            r,
            x,
        ) by {
            if x == k || has_slug_s(d, x) {
                assert(has_slug_s(rd, x));
                let w = choose|w: int| 0 <= w < rd.len() && (#[trigger] rd[w]).0 == x;
                assert(r[w + 1].0 == x);
            } else {
                let u = choose|u: int| 0 <= u < m.len() && (#[trigger] m[u]).0 == x;
                if u == 0 {
                    assert(r[0].0 == x);
                } else {
                    assert(d[u - 1].0 == x);
                    assert(has_slug_s(d, x));
                }
            }
        }
    }
}

/// Slug insertion keeps the keys strictly ascending.
proof fn lemma_insert_pair_wf(m: Seq<(Seq<char>, Seq<char>)>, k: Seq<char>, val: Seq<char>)
    requires
        inner_wf_s(m),
    ensures
        inner_wf_s(insert_pair_s(m, k, val)),
    decreases m.len(),
{
    let r = insert_pair_s(m, k, val);
    if m.len() == 0 {
    } else if m[0].0 == k {
        assert(r =~= seq![(k, val)] + m.drop_first());
        assert forall|i: int, j: int| 0 <= i < j < r.len() implies lex_lt_s(
            (#[trigger] r[i]).0,
            (#[trigger] r[j]).0,
        ) by {
            if i == 0 {
                assert(r[j] == m[j]);
                assert(lex_lt_s(m[0].0, m[j].0));
            } else {
                assert(r[i] == m[i] && r[j] == m[j]);
            }
        }
    } else if lex_lt_s(k, m[0].0) {
        assert(r =~= seq![(k, val)] + m);
        assert forall|i: int, j: int| 0 <= i < j < r.len() implies lex_lt_s(
            (#[trigger] r[i]).0,
            (#[trigger] r[j]).0,
        ) by {
            if i == 0 {
                assert(r[j] == m[j - 1]);
                if j - 1 > 0 {
                    assert(lex_lt_s(m[0].0, m[j - 1].0));
                    lemma_lex_trans(k, m[0].0, m[j - 1].0);
                }
            } else {
                assert(r[i] == m[i - 1] && r[j] == m[j - 1]);
            }
        }
    } else {
        let d = m.drop_first();
        assert forall|i: int, j: int| 0 <= i < j < d.len() implies lex_lt_s(
            (#[trigger] d[i]).0,
            (#[trigger] d[j]).0,
        ) by {
            assert(d[i] == m[i + 1] && d[j] == m[j + 1]);
        }
        lemma_insert_pair_wf(d, k, val);
        lemma_insert_pair_keys(d, k, val);
        lemma_lex_connected(k, m[0].0);
        assert(lex_lt_s(m[0].0, k));
        let rd = insert_pair_s(d, k, val);
        assert(r =~= seq![m[0]] + rd);
        assert forall|i: int, j: int| 0 <= i < j < r.len() implies lex_lt_s(
            (#[trigger] r[i]).0,
            (#[trigger] r[j]).0,
        ) by {
            if i == 0 {
                assert(r[j] == rd[j - 1]);
                assert(has_slug_s(rd, rd[j - 1].0)) by {
                    assert(rd[j - 1].0 == rd[j - 1].0);
                }
                if rd[j - 1].0 == k {
                } else {
                    assert(has_slug_s(d, rd[j - 1].0));
                    let w = choose|w: int|
                        0 <= w < d.len() && (#[trigger] d[w]).0 == rd[j - 1].0;
                    assert(d[w] == m[w + 1]);
                    assert(lex_lt_s(m[0].0, m[w + 1].0));
                }
            } else {
                assert(r[i] == rd[i - 1] && r[j] == rd[j - 1]);
            }
        }
    }
}

/// The languages after an insertion: the old ones and the new one.
proof fn lemma_insert_lang_keys(
    m: Seq<(Seq<char>, Seq<(Seq<char>, Seq<char>)>)>,
    lang: Seq<char>,
    slug: Seq<char>,
    content: Seq<char>,
)
    ensures
        forall|x: Seq<char>|
            #[trigger] has_lang_s(insert_lang_s(m, lang, slug, content), x) <==> (has_lang_s(
                m,
                x,
            ) || x == lang),
    decreases m.len(),
{
    let r = insert_lang_s(m, lang, slug, content);
    if m.len() == 0 {
        assert forall|x: Seq<char>| #[trigger] has_lang_s(r, x) implies (has_lang_s(m, x) || x
            == lang) by {
            let u = choose|u: int| 0 <= u < r.len() && (#[trigger] r[u]).0 == x;
            assert(r[0].0 == lang);
        }
        assert forall|x: Seq<char>| (has_lang_s(m, x) || x == lang) implies #[trigger] has_lang_s(
            r,
            x,
        ) by {
            if x == lang {
                assert(r[0].0 == x);
            }
        }
    } else if m[0].0 == lang {
        assert(r =~= seq![(lang, insert_pair_s(m[0].1, slug, content))] + m.drop_first());
        assert forall|x: Seq<char>| #[trigger] has_lang_s(r, x) implies (has_lang_s(m, x) || x
            == lang) by {
            let u = choose|u: int| 0 <= u < r.len() && (#[trigger] r[u]).0 == x;
            if u > 0 {
                assert(m[u].0 == x);
            }
        }
        assert forall|x: Seq<char>| (has_lang_s(m, x) || x == lang) implies #[trigger] has_lang_s(
            r,
            x,
        ) by {
            if x == lang {
                assert(r[0].0 == x);
            } else {
                let u = choose|u: int| 0 <= u < m.len() && (#[trigger] m[u]).0 == x;
                assert(u > 0);
                assert(r[u].0 == x);
            }
        }
    } else if lex_lt_s(lang, m[0].0) {
        assert(r =~= seq![(lang, seq![(slug, content)])] + m);
        assert forall|x: Seq<char>| #[trigger] has_lang_s(r, x) implies (has_lang_s(m, x) || x
            == lang) by {
            let u = choose|u: int| 0 <= u < r.len() && (#[trigger] r[u]).0 == x;
            if u > 0 {
                assert(m[u - 1].0 == x);
            }
        }
        assert forall|x: Seq<char>| (has_lang_s(m, x) || x == lang) implies #[trigger] has_lang_s(
            r,
            x,
        ) by {
            if x == lang {
                assert(r[0].0 == x);
            } else {
                let u = choose|u: int| 0 <= u < m.len() && (#[trigger] m[u]).0 == x;
                assert(r[u + 1].0 == x);
            }
        }
    } else {
        let d = m.drop_first();
        lemma_insert_lang_keys(d, lang, slug, content);
        let rd = insert_lang_s(d, lang, slug, content);
        assert(r =~= seq![m[0]] + rd);
        assert forall|x: Seq<char>| #[trigger] has_lang_s(r, x) implies (has_lang_s(m, x) || x
            == lang) by {
            let u = choose|u: int| 0 <= u < r.len() && (#[trigger] r[u]).0 == x;
            if u == 0 {
                assert(m[0].0 == x);
            } else {
                assert(rd[u - 1].0 == x);
                assert(has_lang_s(rd, x));
                if x != lang {
                    assert(has_lang_s(d, x));
                    let w = choose|w: int| 0 <= w < d.len() && (#[trigger] d[w]).0 == x;
                    assert(m[w + 1].0 == x);
                }
            }
        }
        assert forall|x: Seq<char>| (has_lang_s(m, x) || x == lang) implies #[trigger] has_lang_s(
            r,
            x,
        ) by {
            if x == lang || has_lang_s(d, x) {
                assert(has_lang_s(rd, x));
                let w = choose|w: int| 0 <= w < rd.len() && (#[trigger] rd[w]).0 == x;
                assert(r[w + 1].0 == x);
            } else {
                let u = choose|u: int| 0 <= u < m.len() && (#[trigger] m[u]).0 == x;
                if u == 0 {
                    assert(r[0].0 == x);
                } else {
                    assert(d[u - 1].0 == x);
                    assert(has_lang_s(d, x));
                }
            }
        }
    }
}

/// Storing a document keeps the corpus well formed: languages ascending,
/// each slug once within its language.
pub proof fn lemma_insert_lang_wf(
    m: Seq<(Seq<char>, Seq<(Seq<char>, Seq<char>)>)>,
    lang: Seq<char>,
    slug: Seq<char>,
    content: Seq<char>,
)
    requires
        corpus_wf_s(m),
    ensures
        corpus_wf_s(insert_lang_s(m, lang, slug, content)),
    decreases m.len(),
{
    let r = insert_lang_s(m, lang, slug, content);
    if m.len() == 0 {
        assert forall|i: int| 0 <= i < r.len() implies inner_wf_s((#[trigger] r[i]).1) by {
            assert(r[0].1 =~= seq![(slug, content)]);
        }
    } else if m[0].0 == lang {
        assert(r =~= seq![(lang, insert_pair_s(m[0].1, slug, content))] + m.drop_first());
        assert forall|i: int, j: int| 0 <= i < j < r.len() implies lex_lt_s(
            (#[trigger] r[i]).0,
            (#[trigger] r[j]).0,
        ) by {
            if i == 0 {
                assert(r[j] == m[j]);
                assert(lex_lt_s(m[0].0, m[j].0));
            } else {
                assert(r[i] == m[i] && r[j] == m[j]);
            }
        }
        assert forall|i: int| 0 <= i < r.len() implies inner_wf_s((#[trigger] r[i]).1) by {
            if i == 0 {
                assert(inner_wf_s(m[0].1));
                lemma_insert_pair_wf(m[0].1, slug, content);
            } else {
                assert(r[i] == m[i]);
                assert(inner_wf_s(m[i].1));
            }
        }
    } else if lex_lt_s(lang, m[0].0) {
        assert(r =~= seq![(lang, seq![(slug, content)])] + m);
        assert forall|i: int, j: int| 0 <= i < j < r.len() implies lex_lt_s(
            (#[trigger] r[i]).0,
            (#[trigger] r[j]).0,
        ) by {
            if i == 0 {
                assert(r[j] == m[j - 1]);
                if j - 1 > 0 {
                    assert(lex_lt_s(m[0].0, m[j - 1].0));
                    lemma_lex_trans(lang, m[0].0, m[j - 1].0);
                }
            } else {
                assert(r[i] == m[i - 1] && r[j] == m[j - 1]);
            }
        }
        assert forall|i: int| 0 <= i < r.len() implies inner_wf_s((#[trigger] r[i]).1) by {
            if i == 0 {
                assert(r[0].1 =~= seq![(slug, content)]);
            } else {
                assert(r[i] == m[i - 1]);
                assert(inner_wf_s(m[i - 1].1));
            }
        }
    } else {
        let d = m.drop_first();
        assert forall|i: int, j: int| 0 <= i < j < d.len() implies lex_lt_s(
            (#[trigger] d[i]).0,
            (#[trigger] d[j]).0,
        ) by {
            assert(d[i] == m[i + 1] && d[j] == m[j + 1]);
        }
        assert forall|i: int| 0 <= i < d.len() implies inner_wf_s((#[trigger] d[i]).1) by {
            assert(d[i] == m[i + 1]);
            assert(inner_wf_s(m[i + 1].1));
        }
        lemma_insert_lang_wf(d, lang, slug, content);
        lemma_insert_lang_keys(d, lang, slug, content);
        lemma_lex_connected(lang, m[0].0);
        assert(lex_lt_s(m[0].0, lang));
        let rd = insert_lang_s(d, lang, slug, content);
        assert(r =~= seq![m[0]] + rd);
        assert forall|i: int, j: int| 0 <= i < j < r.len() implies lex_lt_s(
            (#[trigger] r[i]).0,
            (#[trigger] r[j]).0,
        ) by {
            if i == 0 {
                assert(r[j] == rd[j - 1]);
                assert(has_lang_s(rd, rd[j - 1].0)) by {
                    assert(rd[j - 1].0 == rd[j - 1].0);
                }
                if rd[j - 1].0 == lang {
                } else {
                    assert(has_lang_s(d, rd[j - 1].0));
                    let w = choose|w: int|
                        0 <= w < d.len() && (#[trigger] d[w]).0 == rd[j - 1].0;
                    assert(d[w] == m[w + 1]);
                    assert(lex_lt_s(m[0].0, m[w + 1].0));
                }
            } else {
                assert(r[i] == rd[i - 1] && r[j] == rd[j - 1]);
            }
        }
        assert forall|i: int| 0 <= i < r.len() implies inner_wf_s((#[trigger] r[i]).1) by {
            if i == 0 {
                assert(inner_wf_s(m[0].1));
            } else {
                assert(r[i] == rd[i - 1]);
                assert(inner_wf_s(rd[i - 1].1));
            }
        }
    }
}

/// The raw texts of one partition, in stored order.
pub open spec fn texts_of_s(inner: Seq<(Seq<char>, Seq<char>)>) -> Seq<Seq<char>> {
    inner.map_values(|q: (Seq<char>, Seq<char>)| q.1)
}

/// What vectorization makes of one partition: each text parsed,
/// classified, and embedded against the partition's own vocabulary.
pub open spec fn vec_lang_s(inner: Seq<(Seq<char>, Seq<char>)>) -> Seq<(Seq<char>, VecArtModel)> {
    inner.map_values(
        |q: (Seq<char>, Seq<char>)|
            (
                q.0,
                VecArtModel {
                    words: embed_s(vocab_of_texts_s(texts_of_s(inner)), words_of_s(q.1)),
                    atype: article_type_s(q.1),
                    parsed: article_parse_s(q.1),
                },
            ),
    )
}

/// What vectorization makes of the whole corpus.
pub open spec fn vectorize_model_s(
    m: Seq<(Seq<char>, Seq<(Seq<char>, Seq<char>)>)>,
) -> Seq<(Seq<char>, Seq<(Seq<char>, VecArtModel)>)> {
    m.map_values(|p: (Seq<char>, Seq<(Seq<char>, Seq<char>)>)| (p.0, vec_lang_s(p.1)))
}

impl VectorizedArticles {
    /// The vectorized corpus as nested key/value sequences.
    pub open spec fn model(&self) -> Seq<(Seq<char>, Seq<(Seq<char>, VecArtModel)>)> {
        self.map@.map_values(
            |p: (String, Vec<(String, VectorizedArticle)>)|
                (
                    p.0@,
                    p.1@.map_values(|q: (String, VectorizedArticle)| (q.0@, q.1@)),
                ),
        )
    }
}

impl LoadedArticles {
    /// Vectorizes every partition: builds each language's vocabulary from
    /// all its documents, then parses, classifies and embeds each
    /// document.
    pub fn vectorize(&self) -> (r: VectorizedArticles)
        ensures
            r.model() == vectorize_model_s(self.model()),
    {
        let ghost m = self.model();
        let mut map: Vec<(String, Vec<(String, VectorizedArticle)>)> = Vec::new();
        let mut li: usize = 0;
        while li < self.langs.len()
            invariant
                0 <= li <= self.langs@.len(),
                m == self.model(),
                (VectorizedArticles { map: map }).model() =~~= vectorize_model_s(m).take(li as int),
            decreases self.langs@.len() - li,
        {
            let ghost innerm = m[li as int].1;
            let inner = &self.langs[li].1;
            assert(inner_model_s(inner@) == innerm);
            let ghost texts = texts_of_s(innerm);
            // first pass: the partition's vocabulary
            let mut vocab: Vec<Vec<char>> = Vec::new();
            let mut si: usize = 0;
            proof {
                assert(texts.take(0) =~= Seq::<Seq<char>>::empty());
                assert(vocab@.map_values(|t: Vec<char>| t@) =~= vocab_of_texts_s(texts.take(0)));
            }
            while si < inner.len()
                invariant
                    0 <= si <= inner@.len(),
                    inner_model_s(inner@) == innerm,
                    texts == texts_of_s(innerm),
                    innerm.len() == inner@.len(),
                    vocab@.map_values(|t: Vec<char>| t@) == vocab_of_texts_s(
                        texts.take(si as int),
                    ),
                decreases inner@.len() - si,
            {
                let ws = words_of(inner[si].1.as_str());
                assert(ws@.map_values(|t: Vec<char>| t@) == words_of_s(texts[si as int]));
                insert_words(&mut vocab, &ws);
                proof {
                    assert(texts.take(si + 1).drop_last() =~= texts.take(si as int));
                    assert(texts.take(si + 1).last() == texts[si as int]);
                }
                si += 1;
            }
            proof {
                assert(texts.take(texts.len() as int) =~= texts);
            }
            assert(vocab@.map_values(|t: Vec<char>| t@) == vocab_of_texts_s(texts));
            // second pass: parse, classify and embed each document
            let mut out_inner: Vec<(String, VectorizedArticle)> = Vec::new();
            let mut si: usize = 0;
            while si < inner.len()
                invariant
                    0 <= si <= inner@.len(),
                    inner_model_s(inner@) == innerm,
                    texts == texts_of_s(innerm),
                    innerm.len() == inner@.len(),
                    vocab@.map_values(|t: Vec<char>| t@) == vocab_of_texts_s(texts),
                    out_inner@.map_values(|q: (String, VectorizedArticle)| (q.0@, q.1@))
                        =~~= vec_lang_s(innerm).take(si as int),
                decreases inner@.len() - si,
            {
                let slug = clone_string(&inner[si].0);
                let content = inner[si].1.as_str();
                assert(content@ == innerm[si as int].1);
                let ws = words_of(content);
                let words = embed(&vocab, &ws);
                let atype = ArticleType::new(content);
                let parsed = parse_article(content);
                let va = VectorizedArticle { words, atype, parsed };
                proof {
                    assert(va@.words == vec_lang_s(innerm)[si as int].1.words);
                    assert(va@ =~~= vec_lang_s(innerm)[si as int].1);
                }
                out_inner.push((slug, va));
                assert(out_inner@.map_values(|q: (String, VectorizedArticle)| (q.0@, q.1@))
                    =~~= vec_lang_s(innerm).take(si + 1));
                si += 1;
            }
            proof {
                assert(vec_lang_s(innerm).take(innerm.len() as int) =~= vec_lang_s(innerm));
            }
            let lname = clone_string(&self.langs[li].0);
            assert(lname@ == m[li as int].0);
            map.push((lname, out_inner));
            assert((VectorizedArticles { map: map }).model() =~~= vectorize_model_s(m).take(
                li + 1,
            ));
            li += 1;
        }
        proof {
            assert(vectorize_model_s(m).take(m.len() as int) =~= vectorize_model_s(m));
        }
        let r = VectorizedArticles { map };
        assert(r.model() =~~= vectorize_model_s(m));
        r
    }
}


/// Vectorizing an identical corpus twice yields identical vocabularies
/// and identical index assignments: the embedding is a function of the
/// corpus alone.
pub proof fn lemma_vectorize_deterministic(
    m: Seq<(Seq<char>, Seq<(Seq<char>, Seq<char>)>)>,
    a: Seq<(Seq<char>, Seq<(Seq<char>, VecArtModel)>)>,
    b: Seq<(Seq<char>, Seq<(Seq<char>, VecArtModel)>)>,
)
    requires
        a == vectorize_model_s(m),
        b == vectorize_model_s(m),
    ensures
        a == b,
{
}

} // verus!
