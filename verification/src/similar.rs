//! The similarity engine: every document is scored against every other
//! document of its partition by edit distance over their word vectors,
//! same-type pairs at face value, prayer/non-prayer pairs excluded, any
//! other mixed pair burdened with a fixed penalty; the ten best
//! identifiers, ascending by score and then by identifier, are kept.
use vstd::prelude::*;
use crate::text::{append_vec, eq_chars, find_sub, find_sub_s, lemma_find_sub_s, match_at, subrange_vec};
use crate::split::{chars_to_string, split_char_s, to_chars};
use crate::article::{
    concat_chars_s, lemma_concat_take, par_chars_s, word_gebet, word_prayer, ArticleModel,
    ArticleSection, ArticleType, Paragraph, ParagraphModel, ParsedArticle, SectionModel,
};
use crate::inline::{Image, ImageModel};
use crate::vectorize::{
    lemma_lex_irrefl, lemma_lex_trans, lex_lt, lex_lt_s, VecArtModel, VectorizedArticle,
    VectorizedArticles,
};

verus! {

/// The generic Damerau-Levenshtein distance between two index sequences:
/// unit-cost insert, delete, substitute and adjacent transposition. An
/// outside computation, named rather than restated.
pub uninterp spec fn edit_distance_of(a: Seq<int>, b: Seq<int>) -> int;

/// Relies on strsim::generic_damerau_levenshtein: the distance is a
/// function of the two sequences alone.
#[verifier::external_body]
fn dl_distance(a: &Vec<usize>, b: &Vec<usize>) -> (r: usize)
    ensures
        r as int == edit_distance_of(
            a@.map_values(|u: usize| u as int),
            b@.map_values(|u: usize| u as int),
        ),
{
    strsim::generic_damerau_levenshtein(a.as_slice(), b.as_slice())
}

/// The fixed burden on a cross-type pair.
pub open spec fn cross_type_penalty() -> int {
    10000
}

/// Exactly one of the two documents is a prayer: the pair is excluded.
pub open spec fn excluded_pair_s(a: ArticleType, b: ArticleType) -> bool {
    (a == ArticleType::Prayer) != (b == ArticleType::Prayer)
}

/// The penalty of a non-excluded pair: nothing for matching types, the
/// fixed burden otherwise.
pub open spec fn penalty_s(a: ArticleType, b: ArticleType) -> int {
    if a == b {
        0
    } else {
        cross_type_penalty()
    }
}

/// The score of a candidate: the edit distance plus the penalty, held
/// within machine range.
pub open spec fn score_s(words: Seq<int>, at: ArticleType, ow: Seq<int>, ot: ArticleType) -> int {
    let raw = edit_distance_of(words, ow) + penalty_s(at, ot);
    if raw > usize::MAX as int {
        usize::MAX as int
    } else {
        raw
    }
}

/// The scored candidates, in stored order: every other entry whose key is
/// not the document's own and whose type pairing is not excluded.
pub open spec fn candidates_s(
    id: Seq<char>,
    words: Seq<int>,
    at: ArticleType,
    others: Seq<(Seq<char>, VecArtModel)>,
) -> Seq<(int, Seq<char>)>
    decreases others.len(),
{
    if others.len() == 0 {
        seq![]
    } else {
        let rest = candidates_s(id, words, at, others.drop_first());
        let k = others[0].0;
        let o = others[0].1;
        if k == id {
            rest
        } else if excluded_pair_s(at, o.atype) {
            rest
        } else {
            seq![(score_s(words, at, o.words, o.atype), k)] + rest
        }
    }
}

/// The order on scored candidates: ascending score, ties broken by
/// identifier.
pub open spec fn pair_lt_s(a: (int, Seq<char>), b: (int, Seq<char>)) -> bool {
    a.0 < b.0 || (a.0 == b.0 && lex_lt_s(a.1, b.1))
}

/// Inserts a candidate before the first strictly later entry.
pub open spec fn ins_sorted_pair_s(v: Seq<(int, Seq<char>)>, x: (int, Seq<char>)) -> Seq<
    (int, Seq<char>),
>
    decreases v.len(),
{
    if v.len() == 0 {
        seq![x]
    } else if pair_lt_s(x, v[0]) {
        seq![x] + v
    } else {
        seq![v[0]] + ins_sorted_pair_s(v.drop_first(), x)
    }
}

/// The candidates sorted: each inserted in turn.
pub open spec fn sort_pairs_s(v: Seq<(int, Seq<char>)>) -> Seq<(int, Seq<char>)>
    decreases v.len(),
{
    if v.len() == 0 {
        seq![]
    } else {
        ins_sorted_pair_s(sort_pairs_s(v.drop_last()), v.last())
    }
}

/// Ascending by score, ties ascending by identifier.
pub open spec fn pairs_sorted_s(v: Seq<(int, Seq<char>)>) -> bool {
    forall|i: int, j: int| 0 <= i < j < v.len() ==> !pair_lt_s(#[trigger] v[j], #[trigger] v[i])
}

/// The candidate order inherits transitivity and asymmetry.
proof fn lemma_pair_lt_trans(a: (int, Seq<char>), b: (int, Seq<char>), c: (int, Seq<char>))
    requires
        pair_lt_s(a, b),
        pair_lt_s(b, c),
    ensures
        pair_lt_s(a, c),
{
    if a.0 == b.0 && b.0 == c.0 {
        lemma_lex_trans(a.1, b.1, c.1);
    }
}

proof fn lemma_pair_lt_asym(a: (int, Seq<char>), b: (int, Seq<char>))
    requires
        pair_lt_s(a, b),
    ensures
        !pair_lt_s(b, a),
{
    if a.0 == b.0 {
        if lex_lt_s(b.1, a.1) {
            lemma_lex_trans(a.1, b.1, a.1);
            lemma_lex_irrefl(a.1);
        }
    }
}

/// What insertion holds: the new element and the old ones, nothing else.
proof fn lemma_ins_membership(v: Seq<(int, Seq<char>)>, x: (int, Seq<char>))
    ensures
        forall|y: (int, Seq<char>)|
            #[trigger] ins_sorted_pair_s(v, x).contains(y) <==> (v.contains(y) || y == x),
    decreases v.len(),
{
    let r = ins_sorted_pair_s(v, x);
    if v.len() == 0 {
        assert(r =~= seq![x]);
        assert forall|y: (int, Seq<char>)| r.contains(y) implies (v.contains(y) || y == x) by {
            let w = choose|w: int| 0 <= w < r.len() && r[w] == y;
            assert(r[0] == x);
        }
        assert forall|y: (int, Seq<char>)| (v.contains(y) || y == x) implies r.contains(y) by {
            if y == x {
                assert(r[0] == y);
                assert(r.contains(y));
            }
        }
    } else if pair_lt_s(x, v[0]) {
        assert(r =~= seq![x] + v);
        assert forall|y: (int, Seq<char>)| r.contains(y) implies (v.contains(y) || y == x) by {
            let w = choose|w: int| 0 <= w < r.len() && r[w] == y;
            if w > 0 {
                assert(v[w - 1] == y);
                assert(v.contains(y));
            } else {
                assert(r[0] == x);
            }
        }
        assert forall|y: (int, Seq<char>)| (v.contains(y) || y == x) implies r.contains(y) by {
            if y == x {
                assert(r[0] == y);
                assert(r.contains(y));
            } else {
                let w = choose|w: int| 0 <= w < v.len() && v[w] == y;
                assert(r[w + 1] == y);
                assert(r.contains(y));
            }
        }
    } else {
        let d = v.drop_first();
        lemma_ins_membership(d, x);
        let rd = ins_sorted_pair_s(d, x);
        assert(r =~= seq![v[0]] + rd);
        assert forall|y: (int, Seq<char>)| r.contains(y) implies (v.contains(y) || y == x) by {
            let w = choose|w: int| 0 <= w < r.len() && r[w] == y;
            if w == 0 {
                assert(v[0] == y);
                assert(v.contains(y));
            } else {
                assert(rd[w - 1] == y);
                assert(ins_sorted_pair_s(d, x).contains(y));
                if y != x {
                    assert(d.contains(y));
                    let u = choose|u: int| 0 <= u < d.len() && d[u] == y;
                    assert(v[u + 1] == y);
                    assert(v.contains(y));
                }
            }
        }
        assert forall|y: (int, Seq<char>)| (v.contains(y) || y == x) implies r.contains(y) by {
            if y == x {
                assert(ins_sorted_pair_s(d, x).contains(y));
                let u = choose|u: int| 0 <= u < rd.len() && rd[u] == y;
                assert(r[u + 1] == y);
                assert(r.contains(y));
            } else {
                let w = choose|w: int| 0 <= w < v.len() && v[w] == y;
                if w == 0 {
                    assert(r[0] == y);
                    assert(r.contains(y));
                } else {
                    assert(d[w - 1] == y);
                    assert(d.contains(y));
                    assert(ins_sorted_pair_s(d, x).contains(y));
                    let u = choose|u: int| 0 <= u < rd.len() && rd[u] == y;
                    assert(r[u + 1] == y);
                    assert(r.contains(y));
                }
            }
        }
    }
}

/// Insertion preserves sortedness.
proof fn lemma_ins_sorted(v: Seq<(int, Seq<char>)>, x: (int, Seq<char>))
    requires
        pairs_sorted_s(v),
    ensures
        pairs_sorted_s(ins_sorted_pair_s(v, x)),
    decreases v.len(),
{
    let r = ins_sorted_pair_s(v, x);
    if v.len() == 0 {
    } else if pair_lt_s(x, v[0]) {
        assert(r =~= seq![x] + v);
        assert forall|i: int, j: int| 0 <= i < j < r.len() implies !pair_lt_s(
            #[trigger] r[j],
            #[trigger] r[i],
        ) by {
            if i == 0 {
                assert(r[0] == x);
                assert(r[j] == v[j - 1]);
                if pair_lt_s(v[j - 1], x) {
                    if j - 1 > 0 {
                        assert(!pair_lt_s(v[j - 1], v[0]));
                        lemma_pair_lt_trans(v[j - 1], x, v[0]);
                    } else {
                        lemma_pair_lt_asym(x, v[0]);
                    }
                }
            } else {
                assert(r[i] == v[i - 1] && r[j] == v[j - 1]);
                assert(!pair_lt_s(v[j - 1], v[i - 1]));
            }
        }
    } else {
        let d = v.drop_first();
        assert forall|i: int, j: int| 0 <= i < j < d.len() implies !pair_lt_s(
            #[trigger] d[j],
            #[trigger] d[i],
        ) by {
            assert(d[j] == v[j + 1] && d[i] == v[i + 1]);
        }
        lemma_ins_sorted(d, x);
        let rd = ins_sorted_pair_s(d, x);
        lemma_ins_membership(d, x);
        assert(r =~= seq![v[0]] + rd);
        assert forall|i: int, j: int| 0 <= i < j < r.len() implies !pair_lt_s(
            #[trigger] r[j],
            #[trigger] r[i],
        ) by {
            if i == 0 {
                assert(r[0] == v[0]);
                assert(r[j] == rd[j - 1]);
                assert(rd.contains(rd[j - 1]));
                if rd[j - 1] == x {
                    // x was not before v[0]
                    assert(!pair_lt_s(x, v[0]));
                } else {
                    assert(d.contains(rd[j - 1]));
                    let w = choose|w: int| 0 <= w < d.len() && d[w] == rd[j - 1];
                    assert(d[w] == v[w + 1]);
                    assert(!pair_lt_s(v[w + 1], v[0]));
                }
            } else {
                assert(r[i] == rd[i - 1] && r[j] == rd[j - 1]);
                assert(!pair_lt_s(rd[j - 1], rd[i - 1]));
            }
        }
    }
}

/// The sorted candidates are sorted and hold exactly the candidates.
pub proof fn lemma_sort_pairs(v: Seq<(int, Seq<char>)>)
    ensures
        pairs_sorted_s(sort_pairs_s(v)),
        forall|y: (int, Seq<char>)| #[trigger] sort_pairs_s(v).contains(y) <==> v.contains(y),
    decreases v.len(),
{
    if v.len() == 0 {
    } else {
        let d = v.drop_last();
        lemma_sort_pairs(d);
        lemma_ins_sorted(sort_pairs_s(d), v.last());
        lemma_ins_membership(sort_pairs_s(d), v.last());
        let r = sort_pairs_s(v);
        assert(r == ins_sorted_pair_s(sort_pairs_s(d), v.last()));
        assert forall|y: (int, Seq<char>)| #[trigger] r.contains(y) implies v.contains(y) by {
            assert(ins_sorted_pair_s(sort_pairs_s(d), v.last()).contains(y));
            if y == v.last() {
                assert(v[v.len() - 1] == y);
                assert(v.contains(y));
            } else {
                assert(sort_pairs_s(d).contains(y));
                assert(d.contains(y));
                let w = choose|w: int| 0 <= w < d.len() && d[w] == y;
                assert(v[w] == y);
                assert(v.contains(y));
            }
        }
        assert forall|y: (int, Seq<char>)| v.contains(y) implies #[trigger] r.contains(y) by {
            let w = choose|w: int| 0 <= w < v.len() && v[w] == y;
            if w < v.len() - 1 {
                assert(d[w] == y);
                assert(d.contains(y));
                assert(sort_pairs_s(d).contains(y));
                assert(ins_sorted_pair_s(sort_pairs_s(d), v.last()).contains(y));
            } else {
                assert(y == v.last());
                assert(ins_sorted_pair_s(sort_pairs_s(d), v.last()).contains(y));
            }
        }
    }
}

/// The related list: the ten best candidate identifiers.
pub open spec fn related_s(
    id: Seq<char>,
    words: Seq<int>,
    at: ArticleType,
    others: Seq<(Seq<char>, VecArtModel)>,
) -> Seq<Seq<char>> {
    let sorted = sort_pairs_s(candidates_s(id, words, at, others));
    let top = if sorted.len() <= 10 {
        sorted
    } else {
        sorted.take(10)
    };
    top.map_values(|p: (int, Seq<char>)| p.1)
}

/// A related list never exceeds ten identifiers.
pub proof fn lemma_related_len(
    id: Seq<char>,
    words: Seq<int>,
    at: ArticleType,
    others: Seq<(Seq<char>, VecArtModel)>,
)
    ensures
        related_s(id, words, at, others).len() <= 10,
{
}

/// The exec mirror of `ins_sorted_pair_s`.
fn ins_sorted_pair(v: &mut Vec<(usize, String)>, x: (usize, String))
    ensures
        final(v)@.map_values(|p: (usize, String)| (p.0 as int, p.1@)) == ins_sorted_pair_s(
            old(v)@.map_values(|p: (usize, String)| (p.0 as int, p.1@)),
            (x.0 as int, x.1@),
        ),
{
    let ghost model = old(v)@.map_values(|p: (usize, String)| (p.0 as int, p.1@));
    let ghost xm = (x.0 as int, x.1@);
    let xc = to_chars(x.1.as_str());
    let mut i: usize = 0;
    proof {
        assert(model.skip(0) =~= model);
        assert(model.take(0) =~= Seq::<(int, Seq<char>)>::empty());
    }
    while i < v.len()
        invariant
            0 <= i <= v@.len(),
            v@.map_values(|p: (usize, String)| (p.0 as int, p.1@)) == model,
            xc@ == x.1@,
            xm == (x.0 as int, x.1@),
            ins_sorted_pair_s(model, xm) =~~= model.take(i as int) + ins_sorted_pair_s(
                model.skip(i as int),
                xm,
            ),
        decreases v@.len() - i,
    {
        let ghost at = model.skip(i as int);
        proof {
            assert(at[0] == model[i as int]);
            assert(at.drop_first() =~= model.skip(i + 1));
        }
        let ec = to_chars(v[i].1.as_str());
        assert(ec@ == model[i as int].1);
        let before = x.0 < v[i].0 || (x.0 == v[i].0 && lex_lt(&xc, &ec));
        assert(before == pair_lt_s(xm, model[i as int]));
        if before {
            assert(ins_sorted_pair_s(at, xm) =~= seq![xm] + at);
            v.insert(i, x);
            proof {
                assert(v@.map_values(|p: (usize, String)| (p.0 as int, p.1@)) =~~= model.take(
                    i as int,
                ) + (seq![xm] + model.skip(i as int)));
            }
            return ;
        }
        proof {
            assert(ins_sorted_pair_s(at, xm) =~= seq![at[0]] + ins_sorted_pair_s(
                at.drop_first(),
                xm,
            ));
            assert(model.take(i + 1) =~= model.take(i as int) + seq![model[i as int]]);
            assert(ins_sorted_pair_s(model, xm) =~~= model.take(i + 1) + ins_sorted_pair_s(
                model.skip(i + 1),
                xm,
            ));
        }
        i += 1;
    }
    proof {
        assert(model.skip(model.len() as int) =~= Seq::<(int, Seq<char>)>::empty());
        assert(ins_sorted_pair_s(Seq::<(int, Seq<char>)>::empty(), xm) =~= seq![xm]);
        assert(model.take(model.len() as int) =~= model);
    }
    v.push(x);
    assert(v@.map_values(|p: (usize, String)| (p.0 as int, p.1@)) =~~= ins_sorted_pair_s(
        model,
        xm,
    ));
}

/// The related identifiers for one document against its partition.
pub fn get_similar_articles(
    s: &VectorizedArticle,
    id: &str,
    map: &Vec<(String, VectorizedArticle)>,
) -> (r: Vec<String>)
    ensures
        r@.map_values(|x: String| x@) == related_s(
            id@,
            s@.words,
            s.atype,
            map@.map_values(|q: (String, VectorizedArticle)| (q.0@, q.1@)),
        ),
{
    let ghost others = map@.map_values(|q: (String, VectorizedArticle)| (q.0@, q.1@));
    let idc = to_chars(id);
    // score the eligible candidates, in stored order
    let mut cands: Vec<(usize, String)> = Vec::new();
    let mut i: usize = 0;
    proof {
        assert(others.skip(0) =~= others);
    }
    while i < map.len()
        invariant
            0 <= i <= map@.len(),
            others == map@.map_values(|q: (String, VectorizedArticle)| (q.0@, q.1@)),
            idc@ == id@,
            cands@.map_values(|p: (usize, String)| (p.0 as int, p.1@)) + candidates_s(
                id@,
                s@.words,
                s.atype,
                others.skip(i as int),
            ) =~~= candidates_s(id@, s@.words, s.atype, others),
        decreases map@.len() - i,
    {
        let ghost at = others.skip(i as int);
        proof {
            assert(at[0] == others[i as int]);
            assert(at.drop_first() =~= others.skip(i + 1));
        }
        let kc = to_chars(map[i].0.as_str());
        assert(kc@ == others[i as int].0);
        let other = &map[i].1;
        if !eq_chars(&kc, &idc) {
            let self_prayer = matches!(s.atype, ArticleType::Prayer);
            let other_prayer = matches!(other.atype, ArticleType::Prayer);
            if self_prayer == other_prayer {
                assert(!excluded_pair_s(s.atype, other.atype));
                let same = matches!(
                    (s.atype, other.atype),
                    (ArticleType::Prayer, ArticleType::Prayer)
                        | (ArticleType::Tract, ArticleType::Tract)
                        | (ArticleType::Question, ArticleType::Question)
                );
                assert(same == (s.atype == other.atype));
                let penalty: usize = if same {
                    0
                } else {
                    10000
                };
                let d = dl_distance(&s.words, &other.words);
                let score: usize = if d > usize::MAX - penalty {
                    usize::MAX
                } else {
                    d + penalty
                };
                assert(score as int == score_s(
                    s@.words,
                    s.atype,
                    others[i as int].1.words,
                    others[i as int].1.atype,
                ));
                let key = clone_str(&map[i].0);
                cands.push((score, key));
                assert(cands@.map_values(|p: (usize, String)| (p.0 as int, p.1@))
                    + candidates_s(id@, s@.words, s.atype, others.skip(i + 1))
                    =~~= candidates_s(id@, s@.words, s.atype, others));
            } else {
                assert(excluded_pair_s(s.atype, other.atype));
            }
        } else {
            assert(others[i as int].0 == id@);
        }
        i += 1;
    }
    proof {
        assert(others.skip(others.len() as int) =~= Seq::<(Seq<char>, VecArtModel)>::empty());
        assert(cands@.map_values(|p: (usize, String)| (p.0 as int, p.1@)) =~~= candidates_s(
            id@,
            s@.words,
            s.atype,
            others,
        ));
    }
    // sort ascending by (score, identifier)
    let ghost candsm = candidates_s(id@, s@.words, s.atype, others);
    let mut sorted: Vec<(usize, String)> = Vec::new();
    let mut i: usize = 0;
    proof {
        assert(candsm.take(0) =~= Seq::<(int, Seq<char>)>::empty());
        assert(sorted@.map_values(|p: (usize, String)| (p.0 as int, p.1@)) =~= sort_pairs_s(
            candsm.take(0),
        ));
    }
    while i < cands.len()
        invariant
            0 <= i <= cands@.len(),
            candsm == cands@.map_values(|p: (usize, String)| (p.0 as int, p.1@)),
            sorted@.map_values(|p: (usize, String)| (p.0 as int, p.1@)) == sort_pairs_s(
                candsm.take(i as int),
            ),
        decreases cands@.len() - i,
    {
        let score = cands[i].0;
        let key = clone_str(&cands[i].1);
        let ghost xm = (score as int, key@);
        proof {
            assert(xm == candsm[i as int]);
            assert(candsm.take(i + 1).drop_last() =~= candsm.take(i as int));
            assert(candsm.take(i + 1).last() == candsm[i as int]);
        }
        ins_sorted_pair(&mut sorted, (score, key));
        i += 1;
    }
    proof {
        assert(candsm.take(candsm.len() as int) =~= candsm);
    }
    let ghost sortedm = sort_pairs_s(candsm);
    assert(sorted@.map_values(|p: (usize, String)| (p.0 as int, p.1@)) == sortedm);
    // the ten best identifiers
    let n = if sorted.len() <= 10 {
        sorted.len()
    } else {
        10
    };
    let mut out: Vec<String> = Vec::new();
    let mut i: usize = 0;
    let ghost top = if sortedm.len() <= 10 {
        sortedm
    } else {
        sortedm.take(10)
    };
    while i < n
        invariant
            0 <= i <= n <= sorted@.len(),
            n == (if sorted@.len() <= 10 {
                sorted@.len() as int
            } else {
                10
            }),
            sorted@.map_values(|p: (usize, String)| (p.0 as int, p.1@)) == sortedm,
            top == (if sortedm.len() <= 10 {
                sortedm
            } else {
                sortedm.take(10)
            }),
            out@.map_values(|x: String| x@) =~= top.map_values(|p: (int, Seq<char>)| p.1).take(
                i as int,
            ),
        decreases n - i,
    {
        let key = clone_str(&sorted[i].1);
        assert(key@ == top[i as int].1);
        out.push(key);
        assert(out@.map_values(|x: String| x@) =~= top.map_values(
            |p: (int, Seq<char>)| p.1,
        ).take(i + 1 as int));
        i += 1;
    }
    proof {
        assert(out@.map_values(|x: String| x@) =~= top.map_values(|p: (int, Seq<char>)| p.1));
    }
    out
}

/// A clone whose characters are the same.
fn clone_str(s: &String) -> (r: String)
    ensures
        r@ == s@,
{
    s.clone()
}


/// A fully parsed document together with its related-document list.
#[derive(Debug, Clone, PartialEq, Eq)]
pub struct ParsedArticleAnalyzed {
    pub title: String,
    pub date: String,
    pub tags: Vec<String>,
    pub authors: Vec<String>,
    pub sha256: String,
    pub img: Option<Image>,
    pub summary: Vec<Paragraph>,
    pub article_abstract: Vec<Paragraph>,
    pub sections: Vec<ArticleSection>,
    pub related: Vec<String>,
    pub footnotes: Vec<String>,
}

/// The mathematical view of a `ParsedArticleAnalyzed`.
pub ghost struct AnalyzedModel {
    pub title: Seq<char>,
    pub date: Seq<char>,
    pub tags: Seq<Seq<char>>,
    pub authors: Seq<Seq<char>>,
    pub sha256: Seq<char>,
    pub img: Option<ImageModel>,
    pub summary: Seq<ParagraphModel>,
    pub article_abstract: Seq<ParagraphModel>,
    pub sections: Seq<SectionModel>,
    pub related: Seq<Seq<char>>,
    pub footnotes: Seq<Seq<char>>,
}

impl View for ParsedArticleAnalyzed {
    type V = AnalyzedModel;

    open spec fn view(&self) -> AnalyzedModel {
        AnalyzedModel {
            title: self.title@,
            date: self.date@,
            tags: self.tags@.map_values(|t: String| t@),
            authors: self.authors@.map_values(|a: String| a@),
            sha256: self.sha256@,
            img: match self.img {
                Some(ref i) => Some(i@),
                None => None,
            },
            summary: self.summary@.map_values(|p: Paragraph| p@),
            article_abstract: self.article_abstract@.map_values(|p: Paragraph| p@),
            sections: self.sections@.map_values(|sec: ArticleSection| sec@),
            related: self.related@.map_values(|x: String| x@),
            footnotes: self.footnotes@.map_values(|f: String| f@),
        }
    }
}

impl ParsedArticleAnalyzed {
    /// A prayer by its stored tags.
    pub fn is_prayer(&self) -> (r: bool)
        ensures
            r == (exists|i: int|
                0 <= i < self@.tags.len() && ((#[trigger] self@.tags[i]) == word_gebet()
                    || self@.tags[i] == word_prayer())),
    {
        let gebet: Vec<char> = vec!['g', 'e', 'b', 'e', 't'];
        assert(gebet@ =~= word_gebet());
        let prayer: Vec<char> = vec!['p', 'r', 'a', 'y', 'e', 'r'];
        assert(prayer@ =~= word_prayer());
        let mut i: usize = 0;
        while i < self.tags.len()
            invariant
                0 <= i <= self@.tags.len(),
                self@.tags.len() == self.tags@.len(),
                gebet@ == word_gebet(),
                prayer@ == word_prayer(),
                forall|j: int|
                    0 <= j < i ==> (#[trigger] self@.tags[j]) != word_gebet() && self@.tags[j]
                        != word_prayer(),
            decreases self.tags@.len() - i,
        {
            let tc = to_chars(self.tags[i].as_str());
            assert(tc@ == self@.tags[i as int]);
            if eq_chars(&tc, &gebet) || eq_chars(&tc, &prayer) {
                assert(self@.tags[i as int] == word_gebet() || self@.tags[i as int]
                    == word_prayer());
                return true;
            }
            i += 1;
        }
        false
    }

    /// The stored date split on `-` into year, month and day; a date with
    /// fewer than three such parts yields nothing.
    pub fn get_date(&self) -> (r: Option<(&str, &str, &str)>)
        ensures
            match r {
                Some((y, m, d)) => split_char_s(self@.date, '-').len() >= 3 && y@ == split_char_s(
                    self@.date,
                    '-',
                )[0] && m@ == split_char_s(self@.date, '-')[1] && d@ == split_char_s(
                    self@.date,
                    '-',
                )[2],
                None => split_char_s(self@.date, '-').len() < 3,
            },
    {
        let ds = self.date.as_str();
        let c = to_chars(ds);
        let n = c.len();
        let dash: Vec<char> = vec!['-'];
        assert(dash@ =~= seq!['-']);
        let ghost ps = split_char_s(self@.date, '-');
        proof {
            lemma_find_sub_s(c@, seq!['-']);
        }
        let i1 = match find_sub(&c, &dash) {
            Some(i1) => i1,
            None => {
                assert(ps =~= seq![c@]);
                return None;
            },
        };
        assert(match_at(c@, seq!['-'], i1 as int));
        let r1 = subrange_vec(&c, i1 + 1, n);
        assert(r1@ =~= c@.skip(i1 + 1));
        proof {
            lemma_find_sub_s(r1@, seq!['-']);
            assert(ps =~= seq![c@.take(i1 as int)] + split_char_s(c@.skip(i1 + 1), '-'));
        }
        let i2 = match find_sub(&r1, &dash) {
            Some(i2) => i2,
            None => {
                assert(split_char_s(r1@, '-') =~= seq![r1@]);
                assert(ps.len() == 2);
                return None;
            },
        };
        assert(match_at(r1@, seq!['-'], i2 as int));
        let r2 = subrange_vec(&r1, i2 + 1, r1.len());
        assert(r2@ =~= r1@.skip(i2 + 1));
        proof {
            lemma_find_sub_s(r2@, seq!['-']);
            assert(split_char_s(r1@, '-') =~= seq![r1@.take(i2 as int)] + split_char_s(
                r2@,
                '-',
            ));
        }
        let end3: usize = match find_sub(&r2, &dash) {
            Some(i3) => {
                assert(match_at(r2@, seq!['-'], i3 as int));
                proof {
                    assert(split_char_s(r2@, '-') =~= seq![r2@.take(i3 as int)] + split_char_s(
                        r2@.skip(i3 + 1),
                        '-',
                    ));
                }
                i1 + 1 + i2 + 1 + i3
            },
            None => {
                assert(split_char_s(r2@, '-') =~= seq![r2@]);
                n
            },
        };
        assert(ps.len() >= 3);
        let y = ds.substring_char(0, i1);
        let m = ds.substring_char(i1 + 1, i1 + 1 + i2);
        let d = ds.substring_char(i1 + 1 + i2 + 1, end3);
        proof {
            assert(y@ =~= c@.take(i1 as int));
            assert(m@ =~= r1@.take(i2 as int));
            assert(ps[1] == r1@.take(i2 as int));
            assert(d@ =~= (match find_sub_s(r2@, seq!['-']) {
                Some(i3) => r2@.take(i3),
                None => r2@,
            }));
            assert(ps[2] == split_char_s(r2@, '-')[0]);
        }
        Some((y, m, d))
    }

    /// The plain characters this document carries: title, date, tags,
    /// summary, abstract, section titles, section paragraphs and
    /// footnotes, in that order.
    pub fn get_chars(&self) -> (r: Vec<char>)
        ensures
            r@ == analyzed_chars_s(self@),
    {
        let mut r = to_chars(self.title.as_str());
        let d = to_chars(self.date.as_str());
        append_vec(&mut r, &d);
        crate::article::push_concat(&mut r, &self.tags);
        push_par_chars(&mut r, &self.summary);
        push_par_chars(&mut r, &self.article_abstract);
        // section titles
        let ghost titles = self@.sections.map_values(|sec: SectionModel| sec.title);
        let mut i: usize = 0;
        let ghost mid = r@;
        proof {
            assert(titles.take(0) =~= Seq::<Seq<char>>::empty());
            assert(r@ =~= mid + concat_chars_s(titles.take(0)));
        }
        while i < self.sections.len()
            invariant
                0 <= i <= self.sections@.len(),
                titles == self@.sections.map_values(|sec: SectionModel| sec.title),
                titles.len() == self.sections@.len(),
                r@ =~= mid + concat_chars_s(titles.take(i as int)),
            decreases self.sections@.len() - i,
        {
            let t = to_chars(self.sections[i].title.as_str());
            assert(t@ == titles[i as int]);
            append_vec(&mut r, &t);
            proof {
                lemma_concat_take(titles, i as int);
            }
            i += 1;
        }
        proof {
            assert(titles.take(titles.len() as int) =~= titles);
        }
        // section paragraphs
        let ghost parseq = self@.sections.map_values(
            |sec: SectionModel| concat_chars_s(sec.pars.map_values(|p: ParagraphModel| par_chars_s(p))),
        );
        let mut i: usize = 0;
        let ghost mid2 = r@;
        proof {
            assert(parseq.take(0) =~= Seq::<Seq<char>>::empty());
            assert(r@ =~= mid2 + concat_chars_s(parseq.take(0)));
        }
        while i < self.sections.len()
            invariant
                0 <= i <= self.sections@.len(),
                parseq == self@.sections.map_values(
                    |sec: SectionModel| concat_chars_s(
                        sec.pars.map_values(|p: ParagraphModel| par_chars_s(p)),
                    ),
                ),
                parseq.len() == self.sections@.len(),
                r@ =~= mid2 + concat_chars_s(parseq.take(i as int)),
            decreases self.sections@.len() - i,
        {
            push_par_chars(&mut r, &self.sections[i].pars);
            proof {
                lemma_concat_take(parseq, i as int);
            }
            i += 1;
        }
        proof {
            assert(parseq.take(parseq.len() as int) =~= parseq);
        }
        crate::article::push_concat(&mut r, &self.footnotes);
        assert(r@ =~= analyzed_chars_s(self@));
        r
    }
}

/// The plain characters of one analyzed document, in stored order.
pub open spec fn analyzed_chars_s(a: AnalyzedModel) -> Seq<char> {
    a.title + a.date + concat_chars_s(a.tags) + concat_chars_s(
        a.summary.map_values(|p: ParagraphModel| par_chars_s(p)),
    ) + concat_chars_s(a.article_abstract.map_values(|p: ParagraphModel| par_chars_s(p)))
        + concat_chars_s(a.sections.map_values(|sec: SectionModel| sec.title)) + concat_chars_s(
        a.sections.map_values(
            |sec: SectionModel| concat_chars_s(sec.pars.map_values(|p: ParagraphModel| par_chars_s(p))),
        ),
    ) + concat_chars_s(a.footnotes)
}

/// Appends the characters of each paragraph to `out`.
fn push_par_chars(out: &mut Vec<char>, pars: &Vec<Paragraph>)
    ensures
        final(out)@ == old(out)@ + concat_chars_s(
            pars@.map_values(|p: Paragraph| p@).map_values(|p: ParagraphModel| par_chars_s(p)),
        ),
{
    let ghost model = pars@.map_values(|p: Paragraph| p@).map_values(
        |p: ParagraphModel| par_chars_s(p),
    );
    let mut i: usize = 0;
    proof {
        assert(model.take(0) =~= Seq::<Seq<char>>::empty());
        assert(out@ =~= old(out)@ + concat_chars_s(model.take(0)));
    }
    while i < pars.len()
        invariant
            0 <= i <= pars@.len(),
            model == pars@.map_values(|p: Paragraph| p@).map_values(
                |p: ParagraphModel| par_chars_s(p),
            ),
            model.len() == pars@.len(),
            out@ =~= old(out)@ + concat_chars_s(model.take(i as int)),
        decreases pars@.len() - i,
    {
        let c = pars[i].get_chars();
        assert(c@ == model[i as int]);
        append_vec(out, &c);
        proof {
            lemma_concat_take(model, i as int);
        }
        i += 1;
    }
    proof {
        assert(model.take(model.len() as int) =~= model);
    }
}


/// The analyzed corpus, language and slug order kept.
pub struct AnalyzedArticles {
    pub map: Vec<(String, Vec<(String, ParsedArticleAnalyzed)>)>,
}

/// An analyzed document: the parsed fields with the related list set.
pub open spec fn analyzed_of_s(va: VecArtModel, rel: Seq<Seq<char>>) -> AnalyzedModel {
    AnalyzedModel {
        title: va.parsed.title,
        date: va.parsed.date,
        tags: va.parsed.tags,
        authors: va.parsed.authors,
        sha256: va.parsed.sha256,
        img: va.parsed.img,
        summary: va.parsed.summary,
        article_abstract: va.parsed.article_abstract,
        sections: va.parsed.sections,
        related: rel,
        footnotes: va.parsed.footnotes,
    }
}

/// What analysis makes of one partition: each document keeps its parsed
/// tree and gains its related list, computed against the whole partition.
pub open spec fn analyze_lang_s(inner: Seq<(Seq<char>, VecArtModel)>) -> Seq<
    (Seq<char>, AnalyzedModel),
> {
    inner.map_values(
        |q: (Seq<char>, VecArtModel)|
            (q.0, analyzed_of_s(q.1, related_s(q.0, q.1.words, q.1.atype, inner))),
    )
}

/// What analysis makes of the whole corpus.
pub open spec fn analyze_model_s(m: Seq<(Seq<char>, Seq<(Seq<char>, VecArtModel)>)>) -> Seq<
    (Seq<char>, Seq<(Seq<char>, AnalyzedModel)>),
> {
    m.map_values(|p: (Seq<char>, Seq<(Seq<char>, VecArtModel)>)| (p.0, analyze_lang_s(p.1)))
}

impl AnalyzedArticles {
    /// The analyzed corpus as nested key/value sequences.
    pub open spec fn model(&self) -> Seq<(Seq<char>, Seq<(Seq<char>, AnalyzedModel)>)> {
        self.map@.map_values(
            |p: (String, Vec<(String, ParsedArticleAnalyzed)>)|
                (
                    p.0@,
                    p.1@.map_values(|q: (String, ParsedArticleAnalyzed)| (q.0@, q.1@)),
                ),
        )
    }
}

impl VectorizedArticles {
    /// Merges each document's related-document list into it, against all
    /// documents of its own partition.
    pub fn analyze(self) -> (r: AnalyzedArticles)
        ensures
            r.model() == analyze_model_s(self.model()),
    {
        let ghost m = self.model();
        let mut map = self.map;
        let mut out: Vec<(String, Vec<(String, ParsedArticleAnalyzed)>)> = Vec::new();
        let mut li: usize = 0;
        proof {
            assert(m == (VectorizedArticles { map: map }).model());
        }
        while li < map.len()
            invariant
                0 <= li <= map@.len(),
                map@.len() == m.len(),
                forall|k: int|
                    li <= k < map@.len() ==> ((#[trigger] map@[k]).0@, map@[k].1@.map_values(
                        |q: (String, VectorizedArticle)| (q.0@, q.1@),
                    )) == m[k],
                (AnalyzedArticles { map: out }).model() =~~= analyze_model_s(m).take(li as int),
            decreases map@.len() - li,
        {
            let ghost innerm = m[li as int].1;
            let inner = &map[li].1;
            assert((map@[li as int].0@, map@[li as int].1@.map_values(
                |q: (String, VectorizedArticle)| (q.0@, q.1@),
            )) == m[li as int]);
            assert(inner@.map_values(|q: (String, VectorizedArticle)| (q.0@, q.1@)) == innerm);
            // compute every related list first, borrowing the partition
            let mut rels: Vec<Vec<String>> = Vec::new();
            let mut si: usize = 0;
            while si < inner.len()
                invariant
                    0 <= si <= inner@.len(),
                    inner@.map_values(|q: (String, VectorizedArticle)| (q.0@, q.1@)) == innerm,
                    innerm.len() == inner@.len(),
                    rels@.len() == si,
                    forall|k: int|
                        0 <= k < si ==> (#[trigger] rels@[k])@.map_values(|x: String| x@)
                            == related_s(
                            innerm[k].0,
                            innerm[k].1.words,
                            innerm[k].1.atype,
                            innerm,
                        ),
                decreases inner@.len() - si,
            {
                let rel = get_similar_articles(&inner[si].1, inner[si].0.as_str(), inner);
                rels.push(rel);
                si += 1;
            }
            // now move the documents out, attaching their lists
            let lang_name = clone_str(&map[li].0);
            assert(lang_name@ == m[li as int].0);
            let mut inner_own = replace_inner(&mut map, li);
            assert(inner_own@.map_values(|q: (String, VectorizedArticle)| (q.0@, q.1@))
                == innerm);
            let mut out_inner: Vec<(String, ParsedArticleAnalyzed)> = Vec::new();
            let mut si: usize = 0;
            while si < inner_own.len()
                invariant
                    0 <= si <= inner_own@.len(),
                    innerm.len() == inner_own@.len(),
                    forall|k: int|
                        si <= k < innerm.len() ==> ((#[trigger] inner_own@[k]).0@,
                        inner_own@[k].1@) == innerm[k],
                    rels@.len() == innerm.len(),
                    forall|k: int|
                        si <= k < innerm.len() ==> (#[trigger] rels@[k])@.map_values(
                            |x: String| x@,
                        ) == related_s(innerm[k].0, innerm[k].1.words, innerm[k].1.atype, innerm),
                    out_inner@.map_values(|q: (String, ParsedArticleAnalyzed)| (q.0@, q.1@))
                        =~~= analyze_lang_s(innerm).take(si as int),
                decreases inner_own@.len() - si,
            {
                assert((inner_own@[si as int].0@, inner_own@[si as int].1@) == innerm[si as int]);
                let (slug, va) = take_entry(&mut inner_own, si);
                assert(slug@ == innerm[si as int].0);
                assert(va@ == innerm[si as int].1);
                let rel = take_rel(&mut rels, si);
                assert(rel@.map_values(|x: String| x@) == related_s(
                    innerm[si as int].0,
                    innerm[si as int].1.words,
                    innerm[si as int].1.atype,
                    innerm,
                ));
                let p = va.parsed;
                let a = ParsedArticleAnalyzed {
                    title: p.title,
                    date: p.date,
                    tags: p.tags,
                    authors: p.authors,
                    sha256: p.sha256,
                    img: p.img,
                    summary: p.summary,
                    article_abstract: p.article_abstract,
                    sections: p.sections,
                    related: rel,
                    footnotes: p.footnotes,
                };
                proof {
                    assert(a@ =~~= analyze_lang_s(innerm)[si as int].1);
                }
                out_inner.push((slug, a));
                assert(out_inner@.map_values(|q: (String, ParsedArticleAnalyzed)| (q.0@, q.1@))
                    =~~= analyze_lang_s(innerm).take(si + 1));
                si += 1;
            }
            proof {
                assert(analyze_lang_s(innerm).take(innerm.len() as int) =~= analyze_lang_s(
                    innerm,
                ));
            }
            out.push((lang_name, out_inner));
            assert((AnalyzedArticles { map: out }).model() =~~= analyze_model_s(m).take(li + 1));
            li += 1;
        }
        proof {
            assert(analyze_model_s(m).take(m.len() as int) =~= analyze_model_s(m));
        }
        let r = AnalyzedArticles { map: out };
        assert(r.model() =~~= analyze_model_s(m));
        r
    }
}

/// Swaps an empty partition in for the one at `i` and hands the original
/// out, leaving every view of the rest unchanged.
fn replace_inner(
    map: &mut Vec<(String, Vec<(String, VectorizedArticle)>)>,
    i: usize,
) -> (r: Vec<(String, VectorizedArticle)>)
    requires
        i < old(map)@.len(),
    ensures
        r == old(map)@[i as int].1,
        final(map)@.len() == old(map)@.len(),
        forall|k: int|
            0 <= k < final(map)@.len() && k != i ==> final(map)@[k] == old(map)@[k],
        final(map)@[i as int].0 == old(map)@[i as int].0,
{
    let (key, inner) = map.remove(i);
    let empty: Vec<(String, VectorizedArticle)> = Vec::new();
    map.insert(i, (key, empty));
    proof {
        assert(map@[i as int].0 == old(map)@[i as int].0);
        assert forall|k: int|
            0 <= k < map@.len() && k != i implies map@[k] == old(map)@[k] by {
            if k < i {
                assert(map@[k] == old(map)@.remove(i as int)[k]);
            } else {
                assert(map@[k] == old(map)@.remove(i as int)[k - 1]);
            }
        }
    }
    inner
}

/// Moves the entry at `i` out of the partition, replacing it with a
/// placeholder, leaving the views of the others unchanged.
fn take_entry(inner: &mut Vec<(String, VectorizedArticle)>, i: usize) -> (r: (
    String,
    VectorizedArticle,
))
    requires
        i < old(inner)@.len(),
    ensures
        r == old(inner)@[i as int],
        final(inner)@.len() == old(inner)@.len(),
        forall|k: int|
            0 <= k < final(inner)@.len() && k != i ==> final(inner)@[k] == old(inner)@[k],
{
    let e = inner.remove(i);
    let placeholder = VectorizedArticle {
        words: Vec::new(),
        atype: ArticleType::Tract,
        parsed: ParsedArticle {
            title: String::new(),
            date: String::new(),
            tags: Vec::new(),
            authors: Vec::new(),
            sha256: String::new(),
            img: None,
            summary: Vec::new(),
            article_abstract: Vec::new(),
            sections: Vec::new(),
            footnotes: Vec::new(),
        },
    };
    inner.insert(i, (String::new(), placeholder));
    proof {
        assert forall|k: int|
            0 <= k < inner@.len() && k != i implies inner@[k] == old(inner)@[k] by {
            if k < i {
                assert(inner@[k] == old(inner)@.remove(i as int)[k]);
            } else {
                assert(inner@[k] == old(inner)@.remove(i as int)[k - 1]);
            }
        }
    }
    e
}

/// Moves the related list at `i` out, replacing it with an empty one.
fn take_rel(rels: &mut Vec<Vec<String>>, i: usize) -> (r: Vec<String>)
    requires
        i < old(rels)@.len(),
    ensures
        r == old(rels)@[i as int],
        final(rels)@.len() == old(rels)@.len(),
        forall|k: int|
            0 <= k < final(rels)@.len() && k != i ==> final(rels)@[k] == old(rels)@[k],
{
    let e = rels.remove(i);
    rels.insert(i, Vec::new());
    proof {
        assert forall|k: int|
            0 <= k < rels@.len() && k != i implies rels@[k] == old(rels)@[k] by {
            if k < i {
                assert(rels@[k] == old(rels)@.remove(i as int)[k]);
            } else {
                assert(rels@[k] == old(rels)@.remove(i as int)[k - 1]);
            }
        }
    }
    e
}

/// Every entry of a related list names an eligible candidate: another
/// key, never the document's own, never one whose every entry pairs a
/// prayer with a non-prayer.
pub proof fn lemma_candidates_membership(
    id: Seq<char>,
    words: Seq<int>,
    at: ArticleType,
    others: Seq<(Seq<char>, VecArtModel)>,
)
    ensures
        forall|y: (int, Seq<char>)|
            #[trigger] candidates_s(id, words, at, others).contains(y) ==> y.1 != id && exists|
                j: int,
            |
                0 <= j < others.len() && (#[trigger] others[j]).0 == y.1 && !excluded_pair_s(
                    at,
                    others[j].1.atype,
                ),
    decreases others.len(),
{
    if others.len() > 0 {
        let d = others.drop_first();
        lemma_candidates_membership(id, words, at, d);
        let r = candidates_s(id, words, at, others);
        let rest = candidates_s(id, words, at, d);
        assert forall|y: (int, Seq<char>)| #[trigger] r.contains(y) implies y.1 != id && exists|
            j: int,
        |
            0 <= j < others.len() && (#[trigger] others[j]).0 == y.1 && !excluded_pair_s(
                at,
                others[j].1.atype,
            ) by {
            let k = others[0].0;
            let o = others[0].1;
            if k == id || excluded_pair_s(at, o.atype) {
                assert(rest.contains(y));
                let j = choose|j: int|
                    0 <= j < d.len() && (#[trigger] d[j]).0 == y.1 && !excluded_pair_s(
                        at,
                        d[j].1.atype,
                    );
                assert(others[j + 1] == d[j]);
            } else {
                let w = choose|w: int| 0 <= w < r.len() && r[w] == y;
                if w == 0 {
                    assert(y == (score_s(words, at, o.words, o.atype), k));
                    assert(others[0].0 == y.1 && !excluded_pair_s(at, others[0].1.atype));
                } else {
                    assert(rest[w - 1] == y);
                    assert(rest.contains(y));
                    let j = choose|j: int|
                        0 <= j < d.len() && (#[trigger] d[j]).0 == y.1 && !excluded_pair_s(
                            at,
                            d[j].1.atype,
                        );
                    assert(others[j + 1] == d[j]);
                }
            }
        }
    }
}

/// Documents of which exactly one is a prayer never see each other: for
/// any two entries of one partition whose types pair a prayer with a
/// non-prayer, and whose keys are distinct from every other entry's key,
/// neither key appears in the other's related list.
pub proof fn lemma_prayer_excluded(inner: Seq<(Seq<char>, VecArtModel)>, i: int, j: int)
    requires
        0 <= i < inner.len(),
        0 <= j < inner.len(),
        excluded_pair_s(inner[i].1.atype, inner[j].1.atype),
        forall|k: int, l: int|
            0 <= k < inner.len() && 0 <= l < inner.len() && k != l ==> (#[trigger] inner[k]).0 != (
            #[trigger] inner[l]).0,
    ensures
        !related_s(inner[i].0, inner[i].1.words, inner[i].1.atype, inner).contains(inner[j].0),
        !related_s(inner[j].0, inner[j].1.words, inner[j].1.atype, inner).contains(inner[i].0),
{
    lemma_prayer_excluded_one(inner, i, j);
    lemma_prayer_excluded_one(inner, j, i);
}

/// One direction of the prayer exclusion.
proof fn lemma_prayer_excluded_one(inner: Seq<(Seq<char>, VecArtModel)>, i: int, j: int)
    requires
        0 <= i < inner.len(),
        0 <= j < inner.len(),
        excluded_pair_s(inner[i].1.atype, inner[j].1.atype),
        forall|k: int, l: int|
            0 <= k < inner.len() && 0 <= l < inner.len() && k != l ==> (#[trigger] inner[k]).0 != (
            #[trigger] inner[l]).0,
    ensures
        !related_s(inner[i].0, inner[i].1.words, inner[i].1.atype, inner).contains(inner[j].0),
{
    let id = inner[i].0;
    let words = inner[i].1.words;
    let at = inner[i].1.atype;
    let cands = candidates_s(id, words, at, inner);
    let sorted = sort_pairs_s(cands);
    let rel = related_s(id, words, at, inner);
    lemma_sort_pairs(cands);
    lemma_candidates_membership(id, words, at, inner);
    if rel.contains(inner[j].0) {
        let w = choose|w: int| 0 <= w < rel.len() && rel[w] == inner[j].0;
        let top = if sorted.len() <= 10 {
            sorted
        } else {
            sorted.take(10)
        };
        assert(rel[w] == top[w].1);
        assert(sorted[w] == top[w]);
        assert(sorted.contains(sorted[w]));
        assert(cands.contains(sorted[w]));
        let y = sorted[w];
        assert(y.1 == inner[j].0);
        let u = choose|u: int|
            0 <= u < inner.len() && (#[trigger] inner[u]).0 == y.1 && !excluded_pair_s(
                at,
                inner[u].1.atype,
            );
        // the key belongs to entry j alone, whose pairing is excluded
        if u != j {
            assert(inner[u].0 != inner[j].0);
        }
        assert(excluded_pair_s(at, inner[j].1.atype));
    }
}


/// Inserts a character into an ascending, deduplicated run.
pub open spec fn ins_char_s(v: Seq<char>, c: char) -> Seq<char>
    decreases v.len(),
{
    if v.len() == 0 {
        seq![c]
    } else if v[0] == c {
        v
    } else if (c as u32) < (v[0] as u32) {
        seq![c] + v
    } else {
        seq![v[0]] + ins_char_s(v.drop_first(), c)
    }
}

/// Folds a run of characters into the set, left to right.
pub open spec fn ins_chars_s(v: Seq<char>, cs: Seq<char>) -> Seq<char>
    decreases cs.len(),
{
    if cs.len() == 0 {
        v
    } else {
        ins_chars_s(ins_char_s(v, cs[0]), cs.drop_first())
    }
}

/// Folding a concatenation folds the parts in turn.
proof fn lemma_ins_chars_append(v: Seq<char>, a: Seq<char>, b: Seq<char>)
    ensures
        ins_chars_s(v, a + b) == ins_chars_s(ins_chars_s(v, a), b),
    decreases a.len(),
{
    if a.len() == 0 {
        assert(a + b =~= b);
    } else {
        lemma_ins_chars_append(ins_char_s(v, a[0]), a.drop_first(), b);
        assert((a + b).drop_first() =~= a.drop_first() + b);
        assert((a + b)[0] == a[0]);
    }
}

/// The plain characters of one partition's documents, in stored order.
pub open spec fn lang_chars_s(inner: Seq<(Seq<char>, AnalyzedModel)>) -> Seq<char> {
    concat_chars_s(inner.map_values(|q: (Seq<char>, AnalyzedModel)| analyzed_chars_s(q.1)))
}

/// The plain characters of the whole corpus, in stored order.
pub open spec fn corpus_chars_s(m: Seq<(Seq<char>, Seq<(Seq<char>, AnalyzedModel)>)>) -> Seq<
    char,
> {
    concat_chars_s(m.map_values(|p: (Seq<char>, Seq<(Seq<char>, AnalyzedModel)>)| lang_chars_s(p.1)))
}

/// Folding a single character is one insertion.
proof fn lemma_ins_chars_one(v: Seq<char>, c: char)
    ensures
        ins_chars_s(v, seq![c]) == ins_char_s(v, c),
{
    assert(seq![c][0] == c);
    assert(seq![c].drop_first() =~= Seq::<char>::empty());
    assert(ins_chars_s(ins_char_s(v, c), Seq::<char>::empty()) == ins_char_s(v, c));
}

/// The exec mirror of `ins_char_s`.
fn ins_char(v: &mut Vec<char>, c: char)
    ensures
        final(v)@ == ins_char_s(old(v)@, c),
{
    let ghost model = old(v)@;
    let mut i: usize = 0;
    proof {
        assert(model.skip(0) =~= model);
        assert(model.take(0) =~= Seq::<char>::empty());
    }
    while i < v.len()
        invariant
            0 <= i <= v@.len(),
            v@ == model,
            ins_char_s(model, c) =~= model.take(i as int) + ins_char_s(model.skip(i as int), c),
        decreases v@.len() - i,
    {
        let ghost at = model.skip(i as int);
        proof {
            assert(at[0] == model[i as int]);
            assert(at.drop_first() =~= model.skip(i + 1));
        }
        if v[i] == c {
            assert(ins_char_s(at, c) =~= at);
            proof {
                assert(model.take(i as int) + model.skip(i as int) =~= model);
            }
            return ;
        }
        if (c as u32) < (v[i] as u32) {
            assert(ins_char_s(at, c) =~= seq![c] + at);
            v.insert(i, c);
            proof {
                assert(v@ =~= model.take(i as int) + (seq![c] + model.skip(i as int)));
            }
            return ;
        }
        proof {
            assert(ins_char_s(at, c) =~= seq![at[0]] + ins_char_s(at.drop_first(), c));
            assert(model.take(i + 1) =~= model.take(i as int) + seq![model[i as int]]);
        }
        i += 1;
    }
    proof {
        assert(model.skip(model.len() as int) =~= Seq::<char>::empty());
        assert(model.take(model.len() as int) =~= model);
    }
    v.push(c);
    assert(v@ =~= ins_char_s(model, c));
}

impl AnalyzedArticles {
    /// Every character the corpus carries, ascending, each once.
    pub fn get_chars(&self) -> (r: Vec<char>)
        ensures
            r@ == ins_chars_s(Seq::empty(), corpus_chars_s(self.model())),
    {
        let ghost m = self.model();
        let ghost langs_map = m.map_values(
            |p: (Seq<char>, Seq<(Seq<char>, AnalyzedModel)>)| lang_chars_s(p.1),
        );
        let mut out: Vec<char> = Vec::new();
        let mut li: usize = 0;
        proof {
            assert(langs_map.take(0) =~= Seq::<Seq<char>>::empty());
            assert(out@ =~= ins_chars_s(Seq::empty(), concat_chars_s(langs_map.take(0))));
        }
        while li < self.map.len()
            invariant
                0 <= li <= self.map@.len(),
                m == self.model(),
                langs_map == m.map_values(
                    |p: (Seq<char>, Seq<(Seq<char>, AnalyzedModel)>)| lang_chars_s(p.1),
                ),
                langs_map.len() == self.map@.len(),
                out@ == ins_chars_s(Seq::empty(), concat_chars_s(langs_map.take(li as int))),
            decreases self.map@.len() - li,
        {
            let inner = &self.map[li].1;
            let ghost innerm = m[li as int].1;
            assert(inner@.map_values(|q: (String, ParsedArticleAnalyzed)| (q.0@, q.1@))
                == innerm);
            let ghost docs_map = innerm.map_values(
                |q: (Seq<char>, AnalyzedModel)| analyzed_chars_s(q.1),
            );
            let ghost p0 = concat_chars_s(langs_map.take(li as int));
            let mut si: usize = 0;
            proof {
                assert(docs_map.take(0) =~= Seq::<Seq<char>>::empty());
                assert(p0 + concat_chars_s(docs_map.take(0)) =~= p0);
            }
            while si < inner.len()
                invariant
                    0 <= si <= inner@.len(),
                    inner@.map_values(|q: (String, ParsedArticleAnalyzed)| (q.0@, q.1@))
                        == innerm,
                    innerm.len() == inner@.len(),
                    docs_map == innerm.map_values(
                        |q: (Seq<char>, AnalyzedModel)| analyzed_chars_s(q.1),
                    ),
                    out@ == ins_chars_s(
                        Seq::empty(),
                        p0 + concat_chars_s(docs_map.take(si as int)),
                    ),
                decreases inner@.len() - si,
            {
                let cs = inner[si].1.get_chars();
                assert(cs@ == docs_map[si as int]);
                let ghost p1 = p0 + concat_chars_s(docs_map.take(si as int));
                let mut ci: usize = 0;
                proof {
                    assert(cs@.take(0) =~= Seq::<char>::empty());
                    assert(p1 + cs@.take(0) =~= p1);
                }
                while ci < cs.len()
                    invariant
                        0 <= ci <= cs@.len(),
                        out@ == ins_chars_s(Seq::empty(), p1 + cs@.take(ci as int)),
                    decreases cs@.len() - ci,
                {
                    let c = cs[ci];
                    proof {
                        lemma_ins_chars_append(Seq::empty(), p1 + cs@.take(ci as int), seq![c]);
                        lemma_ins_chars_one(ins_chars_s(Seq::empty(), p1 + cs@.take(ci as int)), c);
                        assert((p1 + cs@.take(ci as int)) + seq![c] =~= p1 + cs@.take(ci + 1));
                    }
                    ins_char(&mut out, c);
                    ci += 1;
                }
                proof {
                    assert(cs@.take(cs@.len() as int) =~= cs@);
                    lemma_concat_take(docs_map, si as int);
                    assert(p1 + cs@ =~= p0 + concat_chars_s(docs_map.take(si + 1)));
                }
                si += 1;
            }
            proof {
                assert(docs_map.take(docs_map.len() as int) =~= docs_map);
                lemma_concat_take(langs_map, li as int);
                assert(langs_map[li as int] == lang_chars_s(innerm));
                assert(p0 + concat_chars_s(docs_map) =~= concat_chars_s(langs_map.take(li + 1)));
            }
            li += 1;
        }
        proof {
            assert(langs_map.take(langs_map.len() as int) =~= langs_map);
        }
        out
    }
}

} // verus!
