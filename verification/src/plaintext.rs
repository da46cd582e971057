//! Plain-text projections of the document tree, and the comment stripper
//! used on stylesheet text.
use vstd::prelude::*;
use crate::text::append_vec;
use crate::split::{chars_to_string, to_chars};
use crate::article::{concat_chars_s, lemma_concat_take, Paragraph, ParagraphModel};
use crate::inline::{SentenceItem, SentenceItemModel};

verus! {

/// The display text of one item: footnote references vanish.
pub open spec fn si_text_s(it: SentenceItemModel) -> Seq<char> {
    match it {
        SentenceItemModel::Text(t) => t,
        SentenceItemModel::Link(l) => l.text,
        SentenceItemModel::Footnote(id) => Seq::empty(),
    }
}

/// The display text of a sentence run.
pub open spec fn si2text_s(items: Seq<SentenceItemModel>) -> Seq<char> {
    concat_chars_s(items.map_values(|it: SentenceItemModel| si_text_s(it)))
}

/// Joins the display text of a sentence run.
pub fn si2text(si: &Vec<SentenceItem>) -> (r: String)
    ensures
        r@ == si2text_s(si@.map_values(|it: SentenceItem| it@)),
{
    let ghost model = si@.map_values(|it: SentenceItem| it@).map_values(
        |it: SentenceItemModel| si_text_s(it),
    );
    let mut out: Vec<char> = Vec::new();
    let mut i: usize = 0;
    proof {
        assert(model.take(0) =~= Seq::<Seq<char>>::empty());
        assert(out@ =~= concat_chars_s(model.take(0)));
    }
    while i < si.len()
        invariant
            0 <= i <= si@.len(),
            model == si@.map_values(|it: SentenceItem| it@).map_values(
                |it: SentenceItemModel| si_text_s(it),
            ),
            model.len() == si@.len(),
            out@ =~= concat_chars_s(model.take(i as int)),
        decreases si@.len() - i,
    {
        let piece = match &si[i] {
            SentenceItem::Text { text } => to_chars(text.as_str()),
            SentenceItem::Link { l } => to_chars(l.text.as_str()),
            SentenceItem::Footnote { id } => Vec::new(),
        };
        assert(piece@ =~= model[i as int]);
        append_vec(&mut out, &piece);
        proof {
            lemma_concat_take(model, i as int);
        }
        i += 1;
    }
    proof {
        assert(model.take(model.len() as int) =~= model);
    }
    chars_to_string(&out)
}

/// The display text of a paragraph: only sentence runs carry any.
pub open spec fn par2text_s(p: ParagraphModel) -> Seq<char> {
    match p {
        ParagraphModel::Sentence(items) => si2text_s(items),
        ParagraphModel::Quote(q) => Seq::empty(),
        ParagraphModel::Image(i) => Seq::empty(),
    }
}

pub fn par2text(p: &Paragraph) -> (r: String)
    ensures
        r@ == par2text_s(p@),
{
    match p {
        Paragraph::Sentence { s } => si2text(s),
        Paragraph::Quote { q } => String::new(),
        Paragraph::Image { i } => String::new(),
    }
}

/// What the comment stripper leaves from position `i` on: `/*` and `*/`
/// always toggle the state and vanish; other characters stay only
/// outside a comment.
pub open spec fn strip_comments_from_s(s: Seq<char>, i: int, inside: bool) -> Seq<char>
    decreases s.len() - i,
{
    if i < 0 || i >= s.len() {
        seq![]
    } else if s[i] == '/' && i + 1 < s.len() && s[i + 1] == '*' {
        strip_comments_from_s(s, i + 2, true)
    } else if s[i] == '*' && i + 1 < s.len() && s[i + 1] == '/' {
        strip_comments_from_s(s, i + 2, false)
    } else if !inside {
        seq![s[i]] + strip_comments_from_s(s, i + 1, inside)
    } else {
        strip_comments_from_s(s, i + 1, inside)
    }
}

/// Removes `/* ... */` comments.
pub fn strip_comments(s: &str) -> (r: String)
    ensures
        r@ == strip_comments_from_s(s@, 0, false),
{
    let v = to_chars(s);
    let n = v.len();
    let mut out: Vec<char> = Vec::new();
    let mut inside: bool = false;
    let mut i: usize = 0;
    while i < n
        invariant
            0 <= i <= n == v@.len(),
            out@ + strip_comments_from_s(v@, i as int, inside) =~= strip_comments_from_s(
                v@,
                0,
                false,
            ),
        decreases n - i,
    {
        let c = v[i];
        if c == '/' && i + 1 < n && v[i + 1] == '*' {
            inside = true;
            i += 2;
        } else if c == '*' && i + 1 < n && v[i + 1] == '/' {
            inside = false;
            i += 2;
        } else {
            if !inside {
                out.push(c);
            }
            assert(out@ + strip_comments_from_s(v@, i + 1, inside) =~= strip_comments_from_s(
                v@,
                0,
                false,
            ));
            i += 1;
        }
    }
    chars_to_string(&out)
}


/// An ASCII letter or digit.
pub open spec fn is_ascii_alnum_s(c: char) -> bool {
    ('a' as u32 <= c as u32 && c as u32 <= 'z' as u32) || ('A' as u32 <= c as u32 && c as u32
        <= 'Z' as u32) || ('0' as u32 <= c as u32 && c as u32 <= '9' as u32)
}

/// The lower-case form of an ASCII letter; other characters unchanged.
pub open spec fn ascii_lower_s(c: char) -> char {
    if c == 'A' {
        'a'
    } else if c == 'B' {
        'b'
    } else if c == 'C' {
        'c'
    } else if c == 'D' {
        'd'
    } else if c == 'E' {
        'e'
    } else if c == 'F' {
        'f'
    } else if c == 'G' {
        'g'
    } else if c == 'H' {
        'h'
    } else if c == 'I' {
        'i'
    } else if c == 'J' {
        'j'
    } else if c == 'K' {
        'k'
    } else if c == 'L' {
        'l'
    } else if c == 'M' {
        'm'
    } else if c == 'N' {
        'n'
    } else if c == 'O' {
        'o'
    } else if c == 'P' {
        'p'
    } else if c == 'Q' {
        'q'
    } else if c == 'R' {
        'r'
    } else if c == 'S' {
        's'
    } else if c == 'T' {
        't'
    } else if c == 'U' {
        'u'
    } else if c == 'V' {
        'v'
    } else if c == 'W' {
        'w'
    } else if c == 'X' {
        'x'
    } else if c == 'Y' {
        'y'
    } else if c == 'Z' {
        'z'
    } else {
        c
    }
}

/// The exec mirror of `ascii_lower_s`.
fn ascii_lower(c: char) -> (r: char)
    ensures
        r == ascii_lower_s(c),
{
    if c == 'A' {
        'a'
    } else if c == 'B' {
        'b'
    } else if c == 'C' {
        'c'
    } else if c == 'D' {
        'd'
    } else if c == 'E' {
        'e'
    } else if c == 'F' {
        'f'
    } else if c == 'G' {
        'g'
    } else if c == 'H' {
        'h'
    } else if c == 'I' {
        'i'
    } else if c == 'J' {
        'j'
    } else if c == 'K' {
        'k'
    } else if c == 'L' {
        'l'
    } else if c == 'M' {
        'm'
    } else if c == 'N' {
        'n'
    } else if c == 'O' {
        'o'
    } else if c == 'P' {
        'p'
    } else if c == 'Q' {
        'q'
    } else if c == 'R' {
        'r'
    } else if c == 'S' {
        's'
    } else if c == 'T' {
        't'
    } else if c == 'U' {
        'u'
    } else if c == 'V' {
        'v'
    } else if c == 'W' {
        'w'
    } else if c == 'X' {
        'x'
    } else if c == 'Y' {
        'y'
    } else if c == 'Z' {
        'z'
    } else {
        c
    }
}

/// What one character contributes to a section identifier: letters and
/// digits lowered, whitespace a dash, everything else dropped.
pub open spec fn section_id_char_s(c: char) -> Seq<char> {
    if is_ascii_alnum_s(c) {
        seq![ascii_lower_s(c)]
    } else if crate::text::is_ws(c) {
        seq!['-']
    } else {
        seq![]
    }
}

/// The identifier built from a section title.
pub open spec fn section_id_s(s: Seq<char>) -> Seq<char>
    decreases s.len(),
{
    if s.len() == 0 {
        seq![]
    } else {
        section_id_char_s(s[0]) + section_id_s(s.drop_first())
    }
}

/// Derives the anchor identifier of a section title.
pub fn gen_section_id(s: &str) -> (r: String)
    ensures
        r@ == section_id_s(s@),
{
    let v = to_chars(s);
    let n = v.len();
    let mut out: Vec<char> = Vec::new();
    let mut i: usize = 0;
    proof {
        assert(v@.skip(0) =~= v@);
    }
    while i < n
        invariant
            0 <= i <= n == v@.len(),
            out@ + section_id_s(v@.skip(i as int)) =~= section_id_s(v@),
        decreases n - i,
    {
        let ghost at = v@.skip(i as int);
        proof {
            assert(at[0] == v@[i as int]);
            assert(at.drop_first() =~= v@.skip(i + 1));
        }
        let c = v[i];
        let cu = c as u32;
        if ('a' as u32 <= cu && cu <= 'z' as u32) || ('0' as u32 <= cu && cu <= '9' as u32) {
            out.push(c);
            assert(section_id_char_s(c) =~= seq![c]);
        } else if 'A' as u32 <= cu && cu <= 'Z' as u32 {
            let lowered = ascii_lower(c);
            out.push(lowered);
            assert(section_id_char_s(c) =~= seq![ascii_lower_s(c)]);
        } else if crate::text::ws(c) {
            out.push('-');
            assert(section_id_char_s(c) =~= seq!['-']);
        } else {
            assert(section_id_char_s(c) =~= Seq::<char>::empty());
        }
        assert(out@ + section_id_s(v@.skip(i + 1)) =~= section_id_s(v@));
        i += 1;
    }
    proof {
        assert(v@.skip(n as int) =~= Seq::<char>::empty());
        assert(out@ =~= section_id_s(v@));
    }
    chars_to_string(&out)
}

} // verus!
