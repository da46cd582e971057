//! The embedded document configuration: one JSON object with the optional
//! fields `date` (a string) and `tags` / `authors` (arrays of strings).
//! The grammar here is the library's own flat JSON subset: member values
//! may be strings, arrays of strings, numbers, `true`, `false` or `null`;
//! unknown members are skipped; a duplicate known member, a known member
//! of the wrong shape, or anything outside the subset makes the whole
//! object malformed. Malformed text yields the all-default configuration.
use vstd::prelude::*;
use crate::text::{eq_chars, match_at, subrange_vec};
use crate::split::{chars_to_string, to_chars};

verus! {

/// A document's configuration block.
#[derive(Debug, Clone, PartialEq, Eq)]
pub struct Config {
    pub date: String,
    pub tags: Vec<String>,
    pub authors: Vec<String>,
}

/// The mathematical view of a `Config`.
pub ghost struct ConfigModel {
    pub date: Seq<char>,
    pub tags: Seq<Seq<char>>,
    pub authors: Seq<Seq<char>>,
}

impl View for Config {
    type V = ConfigModel;

    open spec fn view(&self) -> ConfigModel {
        ConfigModel {
            date: self.date@,
            tags: self.tags@.map_values(|t: String| t@),
            authors: self.authors@.map_values(|a: String| a@),
        }
    }
}

pub open spec fn default_config_s() -> ConfigModel {
    ConfigModel { date: Seq::empty(), tags: Seq::empty(), authors: Seq::empty() }
}

/// JSON structural whitespace.
pub open spec fn is_jws(c: char) -> bool {
    c == ' ' || c == '\t' || c == '\n' || c == '\r'
}

/// First position at or after `i` holding something other than JSON
/// whitespace.
pub open spec fn jws_end_s(s: Seq<char>, i: int) -> int
    decreases s.len() - i,
{
    if i < 0 {
        i
    } else if i < s.len() && is_jws(s[i]) {
        jws_end_s(s, i + 1)
    } else {
        i
    }
}

pub proof fn lemma_jws_end(s: Seq<char>, i: int)
    requires
        0 <= i <= s.len(),
    ensures
        i <= jws_end_s(s, i) <= s.len(),
        jws_end_s(s, i) < s.len() ==> !is_jws(s[jws_end_s(s, i)]),
        forall|j: int| i <= j < jws_end_s(s, i) ==> is_jws(s[j]),
    decreases s.len() - i,
{
    if i < s.len() && is_jws(s[i]) {
        lemma_jws_end(s, i + 1);
    }
}

/// The characters a backslash escape stands for; `None` refuses the
/// escape.
pub open spec fn escape_char_s(c: char) -> Option<char> {
    if c == '"' {
        Some('"')
    } else if c == '\\' {
        Some('\\')
    } else if c == '/' {
        Some('/')
    } else if c == 'n' {
        Some('\n')
    } else if c == 'r' {
        Some('\r')
    } else if c == 't' {
        Some('\t')
    } else if c == 'b' {
        Some('\u{8}')
    } else if c == 'f' {
        Some('\u{c}')
    } else {
        None
    }
}

/// The body of a JSON string, starting after the opening quote: the
/// decoded characters and the position after the closing quote.
pub open spec fn string_body_s(s: Seq<char>, i: int) -> Option<(Seq<char>, int)>
    decreases s.len() - i,
{
    if i < 0 || i >= s.len() {
        None
    } else if s[i] == '"' {
        Some((Seq::empty(), i + 1))
    } else if s[i] == '\\' {
        if i + 1 < s.len() {
            match escape_char_s(s[i + 1]) {
                Some(c) => match string_body_s(s, i + 2) {
                    Some((t, j)) => Some((seq![c] + t, j)),
                    None => None,
                },
                None => None,
            }
        } else {
            None
        }
    } else if (s[i] as u32) < 0x20 {
        None
    } else {
        match string_body_s(s, i + 1) {
            Some((t, j)) => Some((seq![s[i]] + t, j)),
            None => None,
        }
    }
}

pub proof fn lemma_string_body_bounds(s: Seq<char>, i: int)
    requires
        0 <= i <= s.len(),
    ensures
        match string_body_s(s, i) {
            Some((t, j)) => i < j <= s.len(),
            None => true,
        },
    decreases s.len() - i,
{
    if i < s.len() {
        if s[i] == '\\' && i + 2 <= s.len() {
            lemma_string_body_bounds(s, i + 2);
        }
        if s[i] != '"' && s[i] != '\\' {
            lemma_string_body_bounds(s, i + 1);
        }
    }
}

/// A complete JSON string at `i`: an opening quote, then the body.
pub open spec fn string_at_s(s: Seq<char>, i: int) -> Option<(Seq<char>, int)> {
    if 0 <= i < s.len() && s[i] == '"' {
        string_body_s(s, i + 1)
    } else {
        None
    }
}

pub open spec fn is_digit(c: char) -> bool {
    '0' as u32 <= c as u32 && c as u32 <= '9' as u32
}

/// First position at or after `i` holding a non-digit.
pub open spec fn digits_end_s(s: Seq<char>, i: int) -> int
    decreases s.len() - i,
{
    if i < 0 {
        i
    } else if i < s.len() && is_digit(s[i]) {
        digits_end_s(s, i + 1)
    } else {
        i
    }
}

pub proof fn lemma_digits_end(s: Seq<char>, i: int)
    requires
        0 <= i <= s.len(),
    ensures
        i <= digits_end_s(s, i) <= s.len(),
        digits_end_s(s, i) < s.len() ==> !is_digit(s[digits_end_s(s, i)]),
        forall|j: int| i <= j < digits_end_s(s, i) ==> is_digit(s[j]),
    decreases s.len() - i,
{
    if i < s.len() && is_digit(s[i]) {
        lemma_digits_end(s, i + 1);
    }
}

/// A JSON number at `i`: optional minus, an integer part (`0`, or a
/// nonzero digit then digits), an optional fraction, an optional
/// exponent. Yields the position after it.
pub open spec fn number_end_s(s: Seq<char>, i: int) -> Option<int> {
    let i1 = if 0 <= i < s.len() && s[i] == '-' {
        i + 1
    } else {
        i
    };
    if !(0 <= i1 < s.len() && is_digit(s[i1])) {
        None
    } else {
        let i2 = if s[i1] == '0' {
            i1 + 1
        } else {
            digits_end_s(s, i1)
        };
        let i3 = if i2 < s.len() && s[i2] == '.' {
            if i2 + 1 < s.len() && is_digit(s[i2 + 1]) {
                digits_end_s(s, i2 + 1)
            } else {
                -1
            }
        } else {
            i2
        };
        if i3 < 0 {
            None
        } else {
            let i4 = if i3 < s.len() && (s[i3] == 'e' || s[i3] == 'E') {
                let i5 = if i3 + 1 < s.len() && (s[i3 + 1] == '+' || s[i3 + 1] == '-') {
                    i3 + 2
                } else {
                    i3 + 1
                };
                if i5 < s.len() && is_digit(s[i5]) {
                    digits_end_s(s, i5)
                } else {
                    -1
                }
            } else {
                i3
            };
            if i4 < 0 {
                None
            } else {
                Some(i4)
            }
        }
    }
}

/// `true`, `false` or `null` at `i`; yields the position after it.
pub open spec fn literal_end_s(s: Seq<char>, i: int) -> Option<int> {
    if crate::text::match_at(s, seq!['t', 'r', 'u', 'e'], i) {
        Some(i + 4)
    } else if crate::text::match_at(s, seq!['f', 'a', 'l', 's', 'e'], i) {
        Some(i + 5)
    } else if crate::text::match_at(s, seq!['n', 'u', 'l', 'l'], i) {
        Some(i + 4)
    } else {
        None
    }
}

/// The elements of an array of strings, starting after `[` (and after any
/// leading whitespace handling by the caller): `first` says whether no
/// element has been read yet. Yields the strings and the position after
/// the closing `]`.
pub open spec fn array_items_s(s: Seq<char>, i: int, first: bool) -> Option<(Seq<Seq<char>>, int)>
    decreases s.len() - i,
    via array_items_s_decreases
{
    let j = jws_end_s(s, i);
    if j >= s.len() || i < 0 {
        None
    } else if s[j] == ']' {
        Some((Seq::empty(), j + 1))
    } else {
        let j2 = if first {
            j
        } else {
            if s[j] == ',' {
                jws_end_s(s, j + 1)
            } else {
                -1
            }
        };
        if j2 < 0 {
            None
        } else {
            match string_at_s(s, j2) {
                Some((v, k)) => match array_items_s(s, k, false) {
                    Some((rest, m)) => Some((seq![v] + rest, m)),
                    None => None,
                },
                None => None,
            }
        }
    }
}

#[via_fn]
proof fn array_items_s_decreases(s: Seq<char>, i: int, first: bool) {
    if 0 <= i <= s.len() {
        lemma_jws_end(s, i);
        let j = jws_end_s(s, i);
        if j < s.len() && s[j] != ']' {
            let j2 = if first {
                j
            } else {
                if s[j] == ',' {
                    jws_end_s(s, j + 1)
                } else {
                    -1
                }
            };
            if 0 <= j2 {
                if !first && s[j] == ',' {
                    lemma_jws_end(s, j + 1);
                }
                if 0 <= j2 < s.len() && s[j2] == '"' {
                    lemma_string_body_bounds(s, j2 + 1);
                }
            }
        }
    }
}

pub proof fn lemma_array_items_bounds(s: Seq<char>, i: int, first: bool)
    requires
        0 <= i <= s.len(),
    ensures
        match array_items_s(s, i, first) {
            Some((v, j)) => i < j <= s.len(),
            None => true,
        },
    decreases s.len() - i,
{
    lemma_jws_end(s, i);
    let j = jws_end_s(s, i);
    if j < s.len() && s[j] != ']' {
        let j2 = if first {
            j
        } else {
            if s[j] == ',' {
                jws_end_s(s, j + 1)
            } else {
                -1
            }
        };
        if 0 <= j2 {
            if !first && s[j] == ',' {
                lemma_jws_end(s, j + 1);
            }
            if j2 < s.len() && s[j2] == '"' {
                lemma_string_body_bounds(s, j2 + 1);
                match string_body_s(s, j2 + 1) {
                    Some((v, k)) => {
                        lemma_array_items_bounds(s, k, false);
                    },
                    None => {},
                }
            }
        }
    }
}

/// One member's value. Strings and string arrays are kept; numbers and
/// the three literals are recognised and dropped; anything else refuses.
pub ghost enum MemberVal {
    Str(Seq<char>),
    Arr(Seq<Seq<char>>),
    Other,
}

/// A member value at `i`.
pub open spec fn value_at_s(s: Seq<char>, i: int) -> Option<(MemberVal, int)> {
    if !(0 <= i < s.len()) {
        None
    } else if s[i] == '"' {
        match string_at_s(s, i) {
            Some((v, j)) => Some((MemberVal::Str(v), j)),
            None => None,
        }
    } else if s[i] == '[' {
        match array_items_s(s, i + 1, true) {
            Some((v, j)) => Some((MemberVal::Arr(v), j)),
            None => None,
        }
    } else if s[i] == 't' || s[i] == 'f' || s[i] == 'n' {
        match literal_end_s(s, i) {
            Some(j) => Some((MemberVal::Other, j)),
            None => None,
        }
    } else {
        match number_end_s(s, i) {
            Some(j) => Some((MemberVal::Other, j)),
            None => None,
        }
    }
}

pub proof fn lemma_value_at_bounds(s: Seq<char>, i: int)
    requires
        0 <= i <= s.len(),
    ensures
        match value_at_s(s, i) {
            Some((v, j)) => i < j <= s.len(),
            None => true,
        },
{
    if i < s.len() {
        if s[i] == '"' {
            lemma_string_body_bounds(s, i + 1);
        } else if s[i] == '[' {
            lemma_array_items_bounds(s, i + 1, true);
        } else if s[i] == 't' || s[i] == 'f' || s[i] == 'n' {
        } else {
            match number_end_s(s, i) {
                Some(j) => {
                    let i1 = if s[i] == '-' {
                        i + 1
                    } else {
                        i
                    };
                    if 0 <= i1 < s.len() && is_digit(s[i1]) {
                        lemma_digits_end(s, i1);
                        let i2 = if s[i1] == '0' {
                            i1 + 1
                        } else {
                            digits_end_s(s, i1)
                        };
                        if i2 < s.len() && s[i2] == '.' && i2 + 1 < s.len() && is_digit(
                            s[i2 + 1],
                        ) {
                            lemma_digits_end(s, i2 + 1);
                        }
                        let i3 = if i2 < s.len() && s[i2] == '.' {
                            if i2 + 1 < s.len() && is_digit(s[i2 + 1]) {
                                digits_end_s(s, i2 + 1)
                            } else {
                                -1
                            }
                        } else {
                            i2
                        };
                        if i3 >= 0 && i3 < s.len() && (s[i3] == 'e' || s[i3] == 'E') {
                            let i5 = if i3 + 1 < s.len() && (s[i3 + 1] == '+' || s[i3 + 1]
                                == '-') {
                                i3 + 2
                            } else {
                                i3 + 1
                            };
                            if i5 < s.len() && is_digit(s[i5]) {
                                lemma_digits_end(s, i5);
                            }
                        }
                    }
                },
                None => {},
            }
        }
    }
}

/// The fields gathered while reading members; `None` marks a field not
/// seen yet.
pub ghost struct CfgAcc {
    pub date: Option<Seq<char>>,
    pub tags: Option<Seq<Seq<char>>>,
    pub authors: Option<Seq<Seq<char>>>,
}

pub open spec fn key_date() -> Seq<char> {
    seq!['d', 'a', 't', 'e']
}

pub open spec fn key_tags() -> Seq<char> {
    seq!['t', 'a', 'g', 's']
}

pub open spec fn key_authors() -> Seq<char> {
    seq!['a', 'u', 't', 'h', 'o', 'r', 's']
}

/// Records one member into the accumulator. A known key refuses a second
/// occurrence or a value of the wrong shape; unknown keys pass through.
pub open spec fn record_member_s(acc: CfgAcc, key: Seq<char>, v: MemberVal) -> Option<CfgAcc> {
    if key == key_date() {
        match (acc.date, v) {
            (Option::None, MemberVal::Str(d)) => Some(CfgAcc { date: Some(d), ..acc }),
            _ => None,
        }
    } else if key == key_tags() {
        match (acc.tags, v) {
            (Option::None, MemberVal::Arr(t)) => Some(CfgAcc { tags: Some(t), ..acc }),
            _ => None,
        }
    } else if key == key_authors() {
        match (acc.authors, v) {
            (Option::None, MemberVal::Arr(a)) => Some(CfgAcc { authors: Some(a), ..acc }),
            _ => None,
        }
    } else {
        Some(acc)
    }
}

/// The members of the object, starting after `{`; `first` says whether no
/// member has been read yet. Yields the accumulator and the position
/// after the closing `}`.
pub open spec fn members_s(s: Seq<char>, i: int, first: bool, acc: CfgAcc) -> Option<(CfgAcc, int)>
    decreases s.len() - i,
    via members_s_decreases
{
    let j = jws_end_s(s, i);
    if j >= s.len() || i < 0 {
        None
    } else if s[j] == '}' {
        Some((acc, j + 1))
    } else {
        let j2 = if first {
            j
        } else {
            if s[j] == ',' {
                jws_end_s(s, j + 1)
            } else {
                -1
            }
        };
        if j2 < 0 {
            None
        } else {
            match string_at_s(s, j2) {
                Some((key, k)) => {
                    let k2 = jws_end_s(s, k);
                    if k2 < s.len() && s[k2] == ':' {
                        let k3 = jws_end_s(s, k2 + 1);
                        match value_at_s(s, k3) {
                            Some((v, m)) => match record_member_s(acc, key, v) {
                                Some(acc2) => members_s(s, m, false, acc2),
                                None => None,
                            },
                            None => None,
                        }
                    } else {
                        None
                    }
                },
                None => None,
            }
        }
    }
}

#[via_fn]
proof fn members_s_decreases(s: Seq<char>, i: int, first: bool, acc: CfgAcc) {
    if 0 <= i <= s.len() {
        lemma_jws_end(s, i);
        let j = jws_end_s(s, i);
        if j < s.len() && s[j] != '}' {
            let j2 = if first {
                j
            } else {
                if s[j] == ',' {
                    jws_end_s(s, j + 1)
                } else {
                    -1
                }
            };
            if 0 <= j2 {
                if !first && s[j] == ',' {
                    lemma_jws_end(s, j + 1);
                }
                if j2 < s.len() && s[j2] == '"' {
                    lemma_string_body_bounds(s, j2 + 1);
                    match string_body_s(s, j2 + 1) {
                        Some((key, k)) => {
                            lemma_jws_end(s, k);
                            let k2 = jws_end_s(s, k);
                            if k2 < s.len() && s[k2] == ':' {
                                lemma_jws_end(s, k2 + 1);
                                let k3 = jws_end_s(s, k2 + 1);
                                lemma_value_at_bounds(s, k3);
                            }
                        },
                        None => {},
                    }
                }
            }
        }
    }
}

/// The whole configuration grammar: optional whitespace, one object,
/// optional whitespace, end of input. Anything else is malformed and
/// yields the all-default configuration.
pub open spec fn config_parse_s(s: Seq<char>) -> ConfigModel {
    let i = jws_end_s(s, 0);
    if i < s.len() && s[i] == '{' {
        match members_s(s, i + 1, true, CfgAcc { date: None, tags: None, authors: None }) {
            Some((acc, j)) => {
                if jws_end_s(s, j) == s.len() {
                    ConfigModel {
                        date: match acc.date {
                            Some(d) => d,
                            None => Seq::empty(),
                        },
                        tags: match acc.tags {
                            Some(t) => t,
                            None => Seq::empty(),
                        },
                        authors: match acc.authors {
                            Some(a) => a,
                            None => Seq::empty(),
                        },
                    }
                } else {
                    default_config_s()
                }
            },
            None => default_config_s(),
        }
    } else {
        default_config_s()
    }
}


fn jws_end(v: &Vec<char>, i: usize) -> (r: usize)
    requires
        i <= v@.len(),
    ensures
        r == jws_end_s(v@, i as int),
        i <= r <= v@.len(),
    decreases v@.len() - i,
{
    if i < v.len() {
        let c = v[i];
        if c == ' ' || c == '\t' || c == '\n' || c == '\r' {
            return jws_end(v, i + 1);
        }
    }
    i
}

fn digits_end(v: &Vec<char>, i: usize) -> (r: usize)
    requires
        i <= v@.len(),
    ensures
        r == digits_end_s(v@, i as int),
        i <= r <= v@.len(),
    decreases v@.len() - i,
{
    if i < v.len() {
        let c = v[i] as u32;
        if '0' as u32 <= c && c <= '9' as u32 {
            return digits_end(v, i + 1);
        }
    }
    i
}

/// The exec mirror of `string_body_s`, accumulating decoded characters.
fn string_body(v: &Vec<char>, i: usize) -> (r: Option<(Vec<char>, usize)>)
    requires
        i <= v@.len(),
    ensures
        match r {
            Some((t, j)) => string_body_s(v@, i as int) == Some((t@, j as int)) && i < j
                <= v@.len(),
            None => string_body_s(v@, i as int) is None,
        },
{
    proof {
        lemma_string_body_bounds(v@, i as int);
    }
    let mut acc: Vec<char> = Vec::new();
    let mut k: usize = i;
    loop
        invariant
            i <= k <= v@.len(),
            (match string_body_s(v@, k as int) {
                Some((t, j)) => string_body_s(v@, i as int) == Some((acc@ + t, j)),
                None => string_body_s(v@, i as int) is None,
            }),
        decreases v@.len() - k,
    {
        proof {
            lemma_string_body_bounds(v@, k as int);
        }
        if k >= v.len() {
            return None;
        }
        let c = v[k];
        if c == '"' {
            proof {
                assert(acc@ + Seq::<char>::empty() =~= acc@);
            }
            return Some((acc, k + 1));
        } else if c == '\\' {
            if k + 1 >= v.len() {
                return None;
            }
            let e = v[k + 1];
            let dec: char = if e == '"' {
                '"'
            } else if e == '\\' {
                '\\'
            } else if e == '/' {
                '/'
            } else if e == 'n' {
                '\n'
            } else if e == 'r' {
                '\r'
            } else if e == 't' {
                '\t'
            } else if e == 'b' {
                '\u{8}'
            } else if e == 'f' {
                '\u{c}'
            } else {
                return None;
            };
            assert(escape_char_s(v@[k + 1]) == Some(dec));
            let ghost acc0 = acc@;
            acc.push(dec);
            proof {
                match string_body_s(v@, k + 2) {
                    Some((t, j)) => {
                        assert(acc0 + (seq![dec] + t) =~= acc@ + t);
                    },
                    None => {},
                }
            }
            k += 2;
        } else if (c as u32) < 0x20 {
            return None;
        } else {
            let ghost acc0 = acc@;
            acc.push(c);
            proof {
                match string_body_s(v@, k + 1) {
                    Some((t, j)) => {
                        assert(acc0 + (seq![c] + t) =~= acc@ + t);
                    },
                    None => {},
                }
            }
            k += 1;
        }
    }
}

fn string_at(v: &Vec<char>, i: usize) -> (r: Option<(Vec<char>, usize)>)
    requires
        i <= v@.len(),
    ensures
        match r {
            Some((t, j)) => string_at_s(v@, i as int) == Some((t@, j as int)) && i < j <= v@.len(),
            None => string_at_s(v@, i as int) is None,
        },
{
    if i < v.len() && v[i] == '"' {
        string_body(v, i + 1)
    } else {
        None
    }
}

fn number_end(v: &Vec<char>, i: usize) -> (r: Option<usize>)
    requires
        i <= v@.len(),
    ensures
        match r {
            Some(j) => number_end_s(v@, i as int) == Some(j as int) && i < j <= v@.len(),
            None => number_end_s(v@, i as int) is None,
        },
{
    proof {
        lemma_value_at_bounds(v@, i as int);
    }
    let i1 = if i < v.len() && v[i] == '-' {
        i + 1
    } else {
        i
    };
    if !(i1 < v.len() && '0' as u32 <= v[i1] as u32 && v[i1] as u32 <= '9' as u32) {
        return None;
    }
    let i2 = if v[i1] == '0' {
        i1 + 1
    } else {
        digits_end(v, i1)
    };
    let i3: usize = if i2 < v.len() && v[i2] == '.' {
        if i2 + 1 < v.len() && '0' as u32 <= v[i2 + 1] as u32 && v[i2 + 1] as u32 <= '9' as u32 {
            digits_end(v, i2 + 1)
        } else {
            return None;
        }
    } else {
        i2
    };
    let i4: usize = if i3 < v.len() && (v[i3] == 'e' || v[i3] == 'E') {
        let i5 = if i3 + 1 < v.len() && (v[i3 + 1] == '+' || v[i3 + 1] == '-') {
            i3 + 2
        } else {
            i3 + 1
        };
        if i5 < v.len() && '0' as u32 <= v[i5] as u32 && v[i5] as u32 <= '9' as u32 {
            digits_end(v, i5)
        } else {
            return None;
        }
    } else {
        i3
    };
    Some(i4)
}

fn literal_end(v: &Vec<char>, i: usize) -> (r: Option<usize>)
    requires
        i <= v@.len(),
    ensures
        match r {
            Some(j) => literal_end_s(v@, i as int) == Some(j as int) && i < j <= v@.len(),
            None => literal_end_s(v@, i as int) is None,
        },
{
    let n = v.len();
    let t: Vec<char> = vec!['t', 'r', 'u', 'e'];
    assert(t@ =~= seq!['t', 'r', 'u', 'e']);
    let f: Vec<char> = vec!['f', 'a', 'l', 's', 'e'];
    assert(f@ =~= seq!['f', 'a', 'l', 's', 'e']);
    let nl: Vec<char> = vec!['n', 'u', 'l', 'l'];
    assert(nl@ =~= seq!['n', 'u', 'l', 'l']);
    if match_pat_at(v, &t, i) {
        assert(i + 4 <= n);
        Some(i + 4)
    } else if match_pat_at(v, &f, i) {
        assert(i + 5 <= n);
        Some(i + 5)
    } else if match_pat_at(v, &nl, i) {
        assert(i + 4 <= n);
        Some(i + 4)
    } else {
        None
    }
}

/// Whether the pattern occurs at position `i` (which may be past the
/// end).
fn match_pat_at(v: &Vec<char>, p: &Vec<char>, i: usize) -> (r: bool)
    requires
        i <= v@.len(),
    ensures
        r == match_at(v@, p@, i as int),
{
    if p.len() > v.len() - i {
        return false;
    }
    let mut j: usize = 0;
    let n = v.len();
    while j < p.len()
        invariant
            0 <= j <= p@.len(),
            i + p@.len() <= v@.len() == n,
            forall|k: int| 0 <= k < j ==> v@[i + k] == p@[k],
        decreases p@.len() - j,
    {
        if v[i + j] != p[j] {
            assert(v@.subrange(i as int, i + p@.len()) != p@) by {
                assert(v@.subrange(i as int, i + p@.len())[j as int] != p@[j as int]);
            }
            return false;
        }
        j += 1;
    }
    assert(v@.subrange(i as int, i + p@.len()) =~= p@);
    true
}

/// The exec mirror of `array_items_s`, accumulating elements.
fn array_items(v: &Vec<char>, i: usize) -> (r: Option<(Vec<Vec<char>>, usize)>)
    requires
        i <= v@.len(),
    ensures
        match r {
            Some((items, j)) => array_items_s(v@, i as int, true) == Some(
                (items@.map_values(|t: Vec<char>| t@), j as int),
            ) && i < j <= v@.len(),
            None => array_items_s(v@, i as int, true) is None,
        },
{
    proof {
        lemma_array_items_bounds(v@, i as int, true);
    }
    let mut acc: Vec<Vec<char>> = Vec::new();
    let mut k: usize = i;
    let mut first: bool = true;
    loop
        invariant
            i <= k <= v@.len(),
            (match array_items_s(v@, k as int, first) {
                Some((items, j)) => array_items_s(v@, i as int, true) == Some(
                    (acc@.map_values(|t: Vec<char>| t@) + items, j),
                ) && k < j <= v@.len(),
                None => array_items_s(v@, i as int, true) is None,
            }),
        decreases v@.len() - k,
    {
        proof {
            lemma_array_items_bounds(v@, k as int, first);
        }
        let j = jws_end(v, k);
        if j >= v.len() {
            return None;
        }
        if v[j] == ']' {
            proof {
                assert(acc@.map_values(|t: Vec<char>| t@) + Seq::<Seq<char>>::empty()
                    =~= acc@.map_values(|t: Vec<char>| t@));
            }
            return Some((acc, j + 1));
        }
        let j2 = if first {
            j
        } else {
            if v[j] == ',' {
                jws_end(v, j + 1)
            } else {
                return None;
            }
        };
        match string_at(v, j2) {
            Some((val, m)) => {
                let ghost acc0 = acc@.map_values(|t: Vec<char>| t@);
                acc.push(val);
                proof {
                    match array_items_s(v@, m as int, false) {
                        Some((rest, jj)) => {
                            assert(acc0 + (seq![val@] + rest) =~= acc@.map_values(
                                |t: Vec<char>| t@,
                            ) + rest);
                        },
                        None => {},
                    }
                    lemma_array_items_bounds(v@, m as int, false);
                }
                k = m;
                first = false;
            },
            None => {
                return None;
            },
        }
    }
}

fn value_at(v: &Vec<char>, i: usize) -> (r: Option<(Option<Vec<char>>, Option<Vec<Vec<char>>>, usize)>)
    requires
        i <= v@.len(),
    ensures
        match r {
            Some((sv, av, j)) => i < j <= v@.len() && (match (sv, av) {
                (Some(t), Option::<Vec<Vec<char>>>::None) => value_at_s(v@, i as int) == Some(
                    (MemberVal::Str(t@), j as int),
                ),
                (Option::<Vec<char>>::None, Some(a)) => value_at_s(v@, i as int) == Some(
                    (MemberVal::Arr(a@.map_values(|t: Vec<char>| t@)), j as int),
                ),
                (Option::<Vec<char>>::None, Option::<Vec<Vec<char>>>::None) => value_at_s(
                    v@,
                    i as int,
                ) == Some((MemberVal::Other, j as int)),
                _ => false,
            }),
            None => value_at_s(v@, i as int) is None,
        },
{
    if i >= v.len() {
        return None;
    }
    let c = v[i];
    if c == '"' {
        match string_at(v, i) {
            Some((t, j)) => Some((Some(t), None, j)),
            None => None,
        }
    } else if c == '[' {
        match array_items(v, i + 1) {
            Some((a, j)) => Some((None, Some(a), j)),
            None => None,
        }
    } else if c == 't' || c == 'f' || c == 'n' {
        match literal_end(v, i) {
            Some(j) => Some((None, None, j)),
            None => None,
        }
    } else {
        match number_end(v, i) {
            Some(j) => Some((None, None, j)),
            None => None,
        }
    }
}

/// Parses a configuration block. Malformed or absent text yields the
/// all-default configuration, never an error.
pub fn parse_config(s: &str) -> (r: Config)
    ensures
        r@ == config_parse_s(s@),
{
    let v = to_chars(s);
    let i = jws_end(&v, 0);
    if !(i < v.len() && v[i] == '{') {
        let c = Config { date: String::new(), tags: Vec::new(), authors: Vec::new() };
        assert(c@.tags =~= default_config_s().tags);
        assert(c@.authors =~= default_config_s().authors);
        assert(c@ =~~= config_parse_s(s@));
        return c;
    }
    let mut k: usize = i + 1;
    let mut first: bool = true;
    let mut date: Option<Vec<char>> = None;
    let mut tags: Option<Vec<Vec<char>>> = None;
    let mut authors: Option<Vec<Vec<char>>> = None;
    let ghost acc0 = CfgAcc { date: None, tags: None, authors: None };
    let kd: Vec<char> = vec!['d', 'a', 't', 'e'];
    assert(kd@ =~= key_date());
    let kt: Vec<char> = vec!['t', 'a', 'g', 's'];
    assert(kt@ =~= key_tags());
    let ka: Vec<char> = vec!['a', 'u', 't', 'h', 'o', 'r', 's'];
    assert(ka@ =~= key_authors());
    loop
        invariant
            k <= v@.len(),
            kd@ == key_date(),
            kt@ == key_tags(),
            ka@ == key_authors(),
            v@ == s@,
            members_s(v@, i as int + 1, true, acc0) == members_s(
                v@,
                k as int,
                first,
                CfgAcc {
                    date: match date {
                        Some(ref d) => Some(d@),
                        None => None,
                    },
                    tags: match tags {
                        Some(ref t) => Some(t@.map_values(|x: Vec<char>| x@)),
                        None => None,
                    },
                    authors: match authors {
                        Some(ref a) => Some(a@.map_values(|x: Vec<char>| x@)),
                        None => None,
                    },
                },
            ),
            jws_end_s(v@, 0) == i as int,
            i < v@.len() && v@[i as int] == '{',
        decreases v@.len() - k,
    {
        let ghost cur_acc = CfgAcc {
            date: match date {
                Some(ref d) => Some(d@),
                None => None,
            },
            tags: match tags {
                Some(ref t) => Some(t@.map_values(|x: Vec<char>| x@)),
                None => None,
            },
            authors: match authors {
                Some(ref a) => Some(a@.map_values(|x: Vec<char>| x@)),
                None => None,
            },
        };
        let j = jws_end(&v, k);
        if j >= v.len() {
            return default_cfg(Ghost(s@));
        }
        if v[j] == '}' {
            // the object ended; trailing whitespace must end the input
            let e = jws_end(&v, j + 1);
            if e == v.len() {
                let cfg = assemble(date, tags, authors);
                proof {
                    assert(cfg@ =~~= config_parse_s(s@));
                }
                return cfg;
            } else {
                return default_cfg(Ghost(s@));
            }
        }
        let j2 = if first {
            j
        } else {
            if v[j] == ',' {
                jws_end(&v, j + 1)
            } else {
                return default_cfg(Ghost(s@));
            }
        };
        match string_at(&v, j2) {
            Some((key, kk)) => {
                let k2 = jws_end(&v, kk);
                if !(k2 < v.len() && v[k2] == ':') {
                    return default_cfg(Ghost(s@));
                }
                let k3 = jws_end(&v, k2 + 1);
                match value_at(&v, k3) {
                    Some((sv, av, m)) => {
                        let ghost mv = if sv is Some {
                            MemberVal::Str(sv.unwrap()@)
                        } else if av is Some {
                            MemberVal::Arr(av.unwrap()@.map_values(|x: Vec<char>| x@))
                        } else {
                            MemberVal::Other
                        };
                        if eq_chars(&key, &kd) {
                            match (&date, &sv) {
                                (Option::None, Some(d)) => {
                                    if av.is_some() {
                                        return default_cfg(Ghost(s@));
                                    }
                                    date = Some(subrange_vec(d, 0, d.len()));
                                    assert(date.unwrap()@ =~= sv.unwrap()@);
                                },
                                _ => {
                                    assert(record_member_s(cur_acc, key@, mv) is None);
                                    return default_cfg(Ghost(s@));
                                },
                            }
                        } else if eq_chars(&key, &kt) {
                            match (&tags, &av) {
                                (Option::None, Some(a)) => {
                                    if sv.is_some() {
                                        return default_cfg(Ghost(s@));
                                    }
                                    tags = Some(copy_lines(a));
                                },
                                _ => {
                                    assert(record_member_s(cur_acc, key@, mv) is None);
                                    return default_cfg(Ghost(s@));
                                },
                            }
                        } else if eq_chars(&key, &ka) {
                            match (&authors, &av) {
                                (Option::None, Some(a)) => {
                                    if sv.is_some() {
                                        return default_cfg(Ghost(s@));
                                    }
                                    authors = Some(copy_lines(a));
                                },
                                _ => {
                                    assert(record_member_s(cur_acc, key@, mv) is None);
                                    return default_cfg(Ghost(s@));
                                },
                            }
                        }
                        proof {
                            let new_acc = CfgAcc {
                                date: match date {
                                    Some(ref d) => Some(d@),
                                    None => None,
                                },
                                tags: match tags {
                                    Some(ref t) => Some(t@.map_values(|x: Vec<char>| x@)),
                                    None => None,
                                },
                                authors: match authors {
                                    Some(ref a) => Some(a@.map_values(|x: Vec<char>| x@)),
                                    None => None,
                                },
                            };
                            assert(record_member_s(cur_acc, key@, mv) == Some(new_acc));
                        }
                        k = m;
                        first = false;
                    },
                    None => {
                        return default_cfg(Ghost(s@));
                    },
                }
            },
            None => {
                return default_cfg(Ghost(s@));
            },
        }
    }
}

/// A fresh copy of a list of character lines.
fn copy_lines(a: &Vec<Vec<char>>) -> (r: Vec<Vec<char>>)
    ensures
        r@.map_values(|x: Vec<char>| x@) == a@.map_values(|x: Vec<char>| x@),
{
    let mut r: Vec<Vec<char>> = Vec::new();
    let mut i: usize = 0;
    while i < a.len()
        invariant
            0 <= i <= a@.len(),
            r@.map_values(|x: Vec<char>| x@) =~= a@.map_values(|x: Vec<char>| x@).take(i as int),
        decreases a@.len() - i,
    {
        let c = subrange_vec(&a[i], 0, a[i].len());
        assert(c@ =~= a@[i as int]@);
        r.push(c);
        assert(r@.map_values(|x: Vec<char>| x@) =~= a@.map_values(|x: Vec<char>| x@).take(
            i + 1 as int,
        ));
        i += 1;
    }
    assert(r@.map_values(|x: Vec<char>| x@) =~= a@.map_values(|x: Vec<char>| x@));
    r
}

/// The all-default configuration, for malformed text.
fn default_cfg(Ghost(s): Ghost<Seq<char>>) -> (r: Config)
    requires
        config_parse_s(s) == default_config_s(),
    ensures
        r@ == config_parse_s(s),
{
    let c = Config { date: String::new(), tags: Vec::new(), authors: Vec::new() };
    assert(c@.tags =~= default_config_s().tags);
    assert(c@.authors =~= default_config_s().authors);
    assert(c@ =~~= default_config_s());
    c
}

/// Builds the configuration from the gathered fields.
fn assemble(date: Option<Vec<char>>, tags: Option<Vec<Vec<char>>>, authors: Option<Vec<Vec<char>>>) -> (r: Config)
    ensures
        r@.date == (match date {
            Some(d) => d@,
            None => Seq::<char>::empty(),
        }),
        r@.tags == (match tags {
            Some(t) => t@.map_values(|x: Vec<char>| x@),
            None => Seq::<Seq<char>>::empty(),
        }),
        r@.authors == (match authors {
            Some(a) => a@.map_values(|x: Vec<char>| x@),
            None => Seq::<Seq<char>>::empty(),
        }),
{
    let d = match date {
        Some(dv) => chars_to_string(&dv),
        None => String::new(),
    };
    let t = match tags {
        Some(tv) => strings_of(&tv),
        None => Vec::new(),
    };
    let a = match authors {
        Some(av) => strings_of(&av),
        None => Vec::new(),
    };
    proof {
        assert(Seq::<String>::empty().map_values(|x: String| x@) =~= Seq::<Seq<char>>::empty());
    }
    Config { date: d, tags: t, authors: a }
}

/// Converts character lines to strings.
pub(crate) fn strings_of(a: &Vec<Vec<char>>) -> (r: Vec<String>)
    ensures
        r@.map_values(|x: String| x@) == a@.map_values(|x: Vec<char>| x@),
{
    let mut r: Vec<String> = Vec::new();
    let mut i: usize = 0;
    while i < a.len()
        invariant
            0 <= i <= a@.len(),
            r@.map_values(|x: String| x@) =~= a@.map_values(|x: Vec<char>| x@).take(i as int),
        decreases a@.len() - i,
    {
        r.push(chars_to_string(&a[i]));
        assert(r@.map_values(|x: String| x@) =~= a@.map_values(|x: Vec<char>| x@).take(
            i + 1 as int,
        ));
        i += 1;
    }
    assert(r@.map_values(|x: String| x@) =~= a@.map_values(|x: Vec<char>| x@));
    r
}

} // verus!
