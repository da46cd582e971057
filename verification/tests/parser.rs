use md2json2::article::{parse_article, parse_paragraph, ArticleType, Paragraph};
use md2json2::config::parse_config;
use md2json2::inline::{Image, Link, Sentence, SentenceItem};
use md2json2::quote::Quote;

#[test]
fn test_quote_2() {
    let s = "
        > Wenn ein Mann eine Jungfrau trifft, die nicht verlobt ist
        > 
        > —- [5. Mose 22,28-29](https://k-bibel.de/ARN/Deuteronomium22#28-29)
    ";

    assert_eq!(
        Quote::new(s),
        Some(Quote {
            title: "".to_string(),
            quote: vec![
                "Wenn ein Mann eine Jungfrau trifft, die nicht verlobt ist".to_string(),
            ],
            author: "5. Mose 22,28-29".to_string(),
            author_link: "https://k-bibel.de/ARN/Deuteronomium22#28-29".to_string(),
            source: "".to_string(),
            source_link: "".to_string(),
        })
    )
}

#[test]
fn test_quote() {
    let s = "
        > **Heading**
        >
        > LineA
        > LineB
        > LineC
        >
        > LineD
        > LineE
        >
        > -- [Test](https://wikipedia.org/Test): [de juiribus](test.pdf)
    ";

    assert_eq!(
        Quote::new(s),
        Some(Quote {
            title: "Heading".to_string(),
            quote: vec!["LineA LineB LineC".to_string(), "LineD LineE".to_string()],
            author: "Test".to_string(),
            author_link: "https://wikipedia.org/Test".to_string(),
            source: "de juiribus".to_string(),
            source_link: "test.pdf".to_string(),
        })
    )
}

#[test]
fn test_sentence() {
    let s = "This is a sentence with a footnote[^15] and a [link](url).";
    assert_eq!(
        Sentence::new(s),
        Sentence {
            items: vec![
                SentenceItem::Text { text: "This is a sentence with a footnote".to_string() },
                SentenceItem::Footnote { id: "15".to_string() },
                SentenceItem::Text { text: " and a ".to_string() },
                SentenceItem::Link {
                    l: Link { text: "link".to_string(), href: "url".to_string() }
                },
                SentenceItem::Text { text: ".".to_string() },
            ]
        }
    )
}

#[test]
fn test_image() {
    let s = "![alt text](Isolated.png \"Title\")";
    assert_eq!(
        Image::new(s),
        Some(Image {
            href: "Isolated.png".to_string(),
            alt: "alt text".to_string(),
            title: "Title".to_string(),
            inline: false,
        })
    );

    let s = "![alt text](Isolated.png)";
    assert_eq!(
        Image::new(s),
        Some(Image {
            href: "Isolated.png".to_string(),
            alt: "alt text".to_string(),
            title: "alt text".to_string(),
            inline: false,
        })
    );

    let s = "![Test)";
    assert_eq!(Image::new(s), None);
}

#[test]
fn link_plain_and_titled() {
    assert_eq!(
        Link::new("[link](url)"),
        Some(Link { text: "link".to_string(), href: "url".to_string() })
    );
    assert_eq!(
        Link::new("[alt](url \"Title\")"),
        Some(Link { text: "Title".to_string(), href: "url".to_string() })
    );
    assert_eq!(Link::new("no brackets"), None);
    assert_eq!(Link::new("[unterminated](href"), None);
}

#[test]
fn image_inline_marker() {
    let i = Image::new("![pic :: inline](x.png)").unwrap();
    assert!(i.inline);
    assert_eq!(i.alt, "pic");
    // the default title keeps the marker, as written in the label
    assert_eq!(i.title, "pic :: inline");
    assert_eq!(i.href, "x.png");
}

#[test]
fn paragraph_precedence() {
    match parse_paragraph("![a](b.png)") {
        Paragraph::Image { i } => assert_eq!(i.href, "b.png"),
        other => panic!("expected an image paragraph, got {:?}", other),
    }
    match parse_paragraph("> quoted line") {
        Paragraph::Quote { q } => assert_eq!(q.quote, vec!["quoted line".to_string()]),
        other => panic!("expected a quote paragraph, got {:?}", other),
    }
    match parse_paragraph("just text") {
        Paragraph::Sentence { s } => {
            assert_eq!(s, vec![SentenceItem::Text { text: "just text".to_string() }])
        }
        other => panic!("expected a sentence paragraph, got {:?}", other),
    }
    // a mixed block is not a quote: every line must carry the marker
    match parse_paragraph("text\n> quote") {
        Paragraph::Sentence { .. } => {}
        other => panic!("expected a sentence paragraph, got {:?}", other),
    }
}

#[test]
fn config_parses_fields() {
    let c = parse_config("{\"date\": \"2024-01-02\", \"tags\": [\"a\", \"b\"], \"authors\": [\"x\"]}");
    assert_eq!(c.date, "2024-01-02");
    assert_eq!(c.tags, vec!["a".to_string(), "b".to_string()]);
    assert_eq!(c.authors, vec!["x".to_string()]);
}

#[test]
fn config_unknown_field_skipped() {
    let c = parse_config("{\"other\": 12.5e3, \"date\": \"d\", \"flag\": true}");
    assert_eq!(c.date, "d");
    assert!(c.tags.is_empty());
    assert!(c.authors.is_empty());
}

#[test]
fn config_malformed_is_default() {
    for s in ["", "not json", "{\"date\": 5}", "{\"tags\": \"x\"}", "{\"date\": \"a\"} trailing"] {
        let c = parse_config(s);
        assert_eq!(c.date, "");
        assert!(c.tags.is_empty());
        assert!(c.authors.is_empty());
    }
}

#[test]
fn article_structure() {
    let doc = "Summary line.\n\n# The Title\n\nFirst abstract line.\n\n## Section One\n\nBody text here.\n\n[^1]: a footnote\n";
    let a = parse_article(doc);
    assert_eq!(a.title, "The Title");
    assert_eq!(a.summary.len(), 1);
    assert_eq!(a.article_abstract.len(), 1);
    assert_eq!(a.sections.len(), 1);
    assert_eq!(a.sections[0].title, "Section One");
    assert_eq!(a.sections[0].indent, 2);
    assert_eq!(a.sections[0].pars.len(), 1);
    assert_eq!(a.footnotes, vec!["[^1]: a footnote".to_string()]);
}

#[test]
fn article_config_block_extracted() {
    let doc = "# T\n\n```\n{\"date\": \"2020-05-06\", \"tags\": [\"gebet\"]}\n```\n\nBody.\n";
    let a = parse_article(doc);
    assert_eq!(a.date, "2020-05-06");
    assert_eq!(a.tags, vec!["gebet".to_string()]);
    // the fence lines are consumed: the abstract holds only the body
    assert_eq!(a.article_abstract.len(), 1);
}

#[test]
fn article_without_heading() {
    let a = parse_article("plain first line\nsecond line\n");
    assert_eq!(a.title, "");
    // with no title, the first line is outside both regions
    assert!(a.summary.is_empty());
    assert_eq!(a.article_abstract.len(), 1);
    assert!(a.sections.is_empty());
}

#[test]
fn article_never_panics_on_malformed_input() {
    for s in [
        "",
        "# ",
        "[^",
        "![",
        "> ",
        "```",
        "```\nunterminated fence to end of file",
        "###### deep ### heading ?",
        "[unbalanced [brackets] everywhere](",
        "\u{2014}- dash line without a quote",
    ] {
        let _ = parse_article(s);
    }
}

#[test]
fn article_type_heuristics() {
    assert_eq!(ArticleType::new("# Is this a question?\nbody"), ArticleType::Question);
    assert_eq!(ArticleType::new("# Plain\nbody"), ArticleType::Tract);
    assert_eq!(ArticleType::new("# Why?\n\nAmen.\n"), ArticleType::Prayer);
    assert_eq!(ArticleType::new("tags gebet\n# x?\n"), ArticleType::Prayer);
    assert_eq!(ArticleType::new("tags prayer\n"), ArticleType::Prayer);
}
