use md2json2::article::parse_article;
use md2json2::plaintext::{gen_section_id, par2text, si2text, strip_comments};
use md2json2::similar::{AnalyzedArticles, ParsedArticleAnalyzed};
use md2json2::vectorize::LoadedArticles;

fn corpus(docs: &[(&str, &str, &str)]) -> LoadedArticles {
    let mut la = LoadedArticles::new();
    for (lang, slug, text) in docs {
        la.insert(lang.to_string(), slug.to_string(), text.to_string());
    }
    la
}

fn doc<'a>(a: &'a AnalyzedArticles, lang: &str, slug: &str) -> &'a ParsedArticleAnalyzed {
    for (l, inner) in a.map.iter() {
        if l == lang {
            for (s, d) in inner.iter() {
                if s == slug {
                    return d;
                }
            }
        }
    }
    panic!("document {}/{} not found", lang, slug);
}

#[test]
fn fingerprint_of_document() {
    let text = "# The Title\n\nFirst abstract line.\n\n## Section One\n\nBody text here.\n";
    let a = parse_article(text);
    assert_eq!(a.sha256, "W_swpYrUbhvI17_j7c55qfIaA-Mr-U-QlNCdk1PKk-4");
}

#[test]
fn related_ordering_by_distance() {
    // "zzz" shares its words with "base", "aaa" shares none: distance must
    // outrank identifier order.
    let la = corpus(&[
        ("de", "base", "alpha beta gamma"),
        ("de", "aaa", "wholly different words"),
        ("de", "zzz", "alpha beta gamma"),
    ]);
    let analyzed = la.vectorize().analyze();
    let b = doc(&analyzed, "de", "base");
    assert_eq!(b.related, vec!["zzz".to_string(), "aaa".to_string()]);
}

#[test]
fn related_tie_break_by_identifier() {
    let la = corpus(&[
        ("de", "mid", "alpha beta"),
        ("de", "bbb", "alpha beta"),
        ("de", "aaa", "alpha beta"),
    ]);
    let analyzed = la.vectorize().analyze();
    let m = doc(&analyzed, "de", "mid");
    assert_eq!(m.related, vec!["aaa".to_string(), "bbb".to_string()]);
}

#[test]
fn related_is_directional() {
    // eleven identical documents and one outlier: the outlier's list keeps
    // a00, while a00's ten closest leave no room for the outlier.
    let mut docs: Vec<(String, String, String)> = Vec::new();
    for i in 0..11 {
        docs.push((
            "de".to_string(),
            format!("a{:02}", i),
            "alpha beta gamma delta".to_string(),
        ));
    }
    docs.push(("de".to_string(), "zz".to_string(), "alpha beta gamma epsilon".to_string()));
    let mut la = LoadedArticles::new();
    for (l, s, t) in docs {
        la.insert(l, s, t);
    }
    let analyzed = la.vectorize().analyze();
    let outlier = doc(&analyzed, "de", "zz");
    assert!(outlier.related.contains(&"a00".to_string()));
    let near = doc(&analyzed, "de", "a00");
    assert_eq!(near.related.len(), 10);
    assert!(!near.related.contains(&"zz".to_string()));
}

#[test]
fn prayer_documents_stay_apart() {
    let la = corpus(&[
        ("de", "gebet1", "Heiliger Text\n\nAmen.\n"),
        ("de", "gebet2", "Anderer Text\n\nAmen.\n"),
        ("de", "tract", "Heiliger Text ohne Schluss\n"),
    ]);
    let analyzed = la.vectorize().analyze();
    let p1 = doc(&analyzed, "de", "gebet1");
    let p2 = doc(&analyzed, "de", "gebet2");
    let t = doc(&analyzed, "de", "tract");
    // neither direction crosses the prayer boundary
    assert!(!p1.related.contains(&"tract".to_string()));
    assert!(!t.related.contains(&"gebet1".to_string()));
    assert!(!t.related.contains(&"gebet2".to_string()));
    // prayers still see each other
    assert_eq!(p1.related, vec!["gebet2".to_string()]);
    assert_eq!(p2.related, vec!["gebet1".to_string()]);
    assert!(t.related.is_empty());
}

#[test]
fn cross_type_penalty_orders_last() {
    // a question only surfaces after every same-type candidate
    let la = corpus(&[
        ("de", "base", "common words here\n"),
        ("de", "far", "totally unrelated text body\n"),
        ("de", "quest", "# common words here?\ncommon words here\n"),
    ]);
    let analyzed = la.vectorize().analyze();
    let b = doc(&analyzed, "de", "base");
    // "far" is a tract like "base"; "quest" pays the penalty
    assert_eq!(b.related, vec!["far".to_string(), "quest".to_string()]);
}

#[test]
fn partitions_are_separate() {
    let la = corpus(&[
        ("de", "one", "gemeinsame worte\n"),
        ("en", "two", "gemeinsame worte\n"),
    ]);
    let analyzed = la.vectorize().analyze();
    assert!(doc(&analyzed, "de", "one").related.is_empty());
    assert!(doc(&analyzed, "en", "two").related.is_empty());
}

#[test]
fn reparse_is_deterministic() {
    let text = "Sum.\n\n# Title?\n\nAbstract [link](url) text[^1].\n\n## Sec\n\n> **Q**\n> body\n\n[^1]: note\n";
    let a1 = parse_article(text);
    let a2 = parse_article(text);
    assert_eq!(a1, a2);
    let la1 = corpus(&[("de", "a", text), ("de", "b", "andere worte\n")]);
    let la2 = corpus(&[("de", "a", text), ("de", "b", "andere worte\n")]);
    let v1 = la1.vectorize();
    let v2 = la2.vectorize();
    for (i1, i2) in v1.map.iter().zip(v2.map.iter()) {
        assert_eq!(i1.0, i2.0);
        for (d1, d2) in i1.1.iter().zip(i2.1.iter()) {
            assert_eq!(d1.0, d2.0);
            assert_eq!(d1.1.words, d2.1.words);
        }
    }
}

#[test]
fn loaded_articles_sorted_and_replaced() {
    let mut la = LoadedArticles::new();
    la.insert("en".to_string(), "zz".to_string(), "one".to_string());
    la.insert("de".to_string(), "bb".to_string(), "two".to_string());
    la.insert("en".to_string(), "aa".to_string(), "three".to_string());
    la.insert("en".to_string(), "zz".to_string(), "four".to_string());
    let langs: Vec<&str> = la.langs.iter().map(|p| p.0.as_str()).collect();
    assert_eq!(langs, vec!["de", "en"]);
    let en = &la.langs[1].1;
    let slugs: Vec<&str> = en.iter().map(|p| p.0.as_str()).collect();
    assert_eq!(slugs, vec!["aa", "zz"]);
    assert_eq!(en[1].1, "four");
}

#[test]
fn analyzed_document_accessors() {
    let text = "# T\n\n```\n{\"date\": \"2021-03-04\", \"tags\": [\"gebet\"]}\n```\n\nHallo Welt text.\n";
    let la = corpus(&[("de", "t", text)]);
    let analyzed = la.vectorize().analyze();
    let d = doc(&analyzed, "de", "t");
    assert!(d.is_prayer());
    assert_eq!(d.get_date(), Some(("2021", "03", "04")));
    let chars = analyzed.get_chars();
    // ascending and deduplicated
    for w in chars.windows(2) {
        assert!(w[0] < w[1]);
    }
    assert!(chars.contains(&'H'));
    assert!(chars.contains(&'2'));
}

#[test]
fn date_with_too_few_parts() {
    let text = "# T\n\n```\n{\"date\": \"2021\"}\n```\n";
    let la = corpus(&[("de", "t", text)]);
    let analyzed = la.vectorize().analyze();
    assert_eq!(doc(&analyzed, "de", "t").get_date(), None);
}

#[test]
fn plain_text_projections() {
    let text = "# T\n\nHello [there](url) friend[^2].\n";
    let la = corpus(&[("de", "t", text)]);
    let analyzed = la.vectorize().analyze();
    let d = doc(&analyzed, "de", "t");
    let par = &d.article_abstract[0];
    assert_eq!(par2text(par), "Hello there friend.");
    match par {
        md2json2::article::Paragraph::Sentence { s } => {
            assert_eq!(si2text(s), "Hello there friend.");
        }
        other => panic!("expected a sentence, got {:?}", other),
    }
}

#[test]
fn strip_comments_removes_blocks() {
    assert_eq!(strip_comments("a /* b */ c"), "a  c");
    assert_eq!(strip_comments("no comments"), "no comments");
    assert_eq!(strip_comments("x /* open"), "x ");
    assert_eq!(strip_comments("/*a*/*/b"), "b");
}

#[test]
fn document_get_chars_concatenates() {
    let text = "# Ti\n\nAb\n";
    let la = corpus(&[("de", "t", text)]);
    let analyzed = la.vectorize().analyze();
    let d = doc(&analyzed, "de", "t");
    let chars: String = d.get_chars().into_iter().collect();
    // title, then (empty) date and tags, then the abstract text
    assert_eq!(chars, "TiAb");
}

#[test]
fn section_ids_from_titles() {
    assert_eq!(gen_section_id("Section One"), "section-one");
    assert_eq!(gen_section_id("Wha-t? 42!"), "what-42");
    assert_eq!(gen_section_id(""), "");
}
