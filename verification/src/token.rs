//! Tokenizer for highlighter-produced inline markup, and the expander
//! that turns the token tree into styled runs.
//!
//! The grammar is deliberately narrow: the only tag form is a span-like
//! element, `<TAG class="c1 c2">...</TAG>` or `<TAG>...</TAG>`, nested
//! freely around character data.  The tag name is always four characters.
//! Anything else ends the current scope: malformed input is truncated
//! rather than rejected, so the tokens collected so far are kept.
//! Character data has the five standard entities decoded.

use vstd::prelude::*;

use crate::strutil::decode_entities;
use crate::strutil::find_char;
use crate::strutil::lemma_find_char;
use crate::strutil::replace_reserved;
use crate::strutil::split_whitespace_words;
use crate::strutil::split_ws;
use crate::style::RunModel;
use crate::style::Style;
use crate::style::StyledRun;
use crate::styletree::StyleElement;
use crate::styletree::StyleModel;
use crate::styletree::get_spec;

verus! {

/// Simplified markup token: raw text, or an element with classes and
/// children.
#[derive(Debug, PartialEq)]
pub enum Token {
    /// Raw text.
    Text(String),
    /// Element (span) containing classes and children.
    Element { classes: Vec<String>, children: Vec<Token> },
}

/// The mathematical value of a [`Token`].
#[verifier::ext_equal]
pub enum TokenModel {
    Text(Seq<char>),
    Element { classes: Seq<Seq<char>>, children: Seq<TokenModel> },
}

/// The model of the tokens of `s` from position `i` on.
pub open spec fn toks_model_from(s: Seq<Token>, i: int) -> Seq<TokenModel>
    decreases s, s.len() - i,
{
    if i < 0 || i >= s.len() {
        Seq::empty()
    } else {
        seq![s[i]@] + toks_model_from(s, i + 1)
    }
}

/// `toks_model_from(s, 0)` is the pointwise model of `s`.
pub proof fn lemma_toks_model(s: Seq<Token>)
    ensures
        toks_model_from(s, 0).len() == s.len(),
        forall|j: int| 0 <= j < s.len() ==> toks_model_from(s, 0)[j] == s[j]@,
{
    lemma_toks_model_from(s, 0);
}

proof fn lemma_toks_model_from(s: Seq<Token>, i: int)
    requires
        0 <= i <= s.len(),
    ensures
        toks_model_from(s, i).len() == s.len() - i,
        forall|j: int| 0 <= j < s.len() - i ==> toks_model_from(s, i)[j] == s[i + j]@,
    decreases s.len() - i,
{
    if i < s.len() {
        lemma_toks_model_from(s, i + 1);
        assert(toks_model_from(s, i) == seq![s[i]@] + toks_model_from(s, i + 1));
        assert(toks_model_from(s, i).len() == s.len() - i);
        assert forall|j: int| 0 <= j < s.len() - i implies toks_model_from(s, i)[j] == s[i + j]@ by {
            if j > 0 {
                assert(toks_model_from(s, i)[j] == toks_model_from(s, i + 1)[j - 1]);
            }
        }
    } else {
        assert(toks_model_from(s, i) =~= Seq::empty());
    }
}

impl View for Token {
    type V = TokenModel;

    open spec fn view(&self) -> TokenModel
        decreases self,
    {
        match self {
            Token::Text(t) => TokenModel::Text(t@),
            Token::Element { classes, children } => TokenModel::Element {
                classes: classes.deep_view(),
                children: toks_model_from(children@, 0),
            },
        }
    }
}

impl DeepView for Token {
    type V = TokenModel;

    open spec fn deep_view(&self) -> TokenModel {
        self@
    }
}

/// `x` forced into `lo ..= hi`.  The parser's positions always lie in
/// range (see [`lemma_parse_pos`]), so each use collapses to `x` itself;
/// the clamp only keeps the recursion measure self-evident.
pub open spec fn clamp(lo: int, x: int, hi: int) -> int {
    if x < lo {
        lo
    } else if x > hi {
        hi
    } else {
        x
    }
}

/// What the tokenizer produces from position `i` of `s`: the sibling
/// tokens of the current scope, and the position just after the `n` of
/// the `</TAG` that closed the scope (or the end of input).  An opening
/// tag consumes `<`, four tag-name characters and either `>` or a
/// character followed by ` class="..."` and `">`; the caller of a nested
/// scope consumes the closing tag's final `>`.  Input that ends inside a
/// tag is truncated into an empty trailing element.
pub open spec fn parse_spec(s: Seq<char>, i: int) -> (Seq<TokenModel>, int)
    decreases s.len() - i,
{
    let n = s.len() as int;
    if i < 0 || i >= n {
        (Seq::empty(), i)
    } else if s[i] == '<' {
        if i + 5 >= n {
            (seq![TokenModel::Element { classes: Seq::empty(), children: Seq::empty() }], n)
        } else {
            let c2 = s[i + 5];
            if c2 == '>' {
                let children_j = parse_spec(s, i + 6);
                let j1 = clamp(i + 6, children_j.1, n);
                let elem = TokenModel::Element {
                    classes: Seq::empty(),
                    children: children_j.0,
                };
                let rest_j = parse_spec(s, clamp(i + 7, j1 + 1, n));
                (seq![elem] + rest_j.0, rest_j.1)
            } else if c2 == 'n' {
                (Seq::empty(), i + 6)
            } else {
                let m3 = clamp(i + 1, i + 13, n);
                let e = clamp(m3, find_char(s, m3, '"'), n);
                let classes = split_ws(s.subrange(m3, e));
                let m4 = clamp(m3, e + 2, n);
                let children_j = parse_spec(s, m4);
                let j1 = clamp(m4, children_j.1, n);
                let elem = TokenModel::Element { classes, children: children_j.0 };
                let rest_j = parse_spec(s, clamp(m4 + 1, j1 + 1, n));
                (seq![elem] + rest_j.0, rest_j.1)
            }
        }
    } else {
        let t = clamp(i + 1, find_char(s, i + 1, '<'), n);
        let text = TokenModel::Text(decode_entities(s.subrange(i, t)));
        let rest_j = parse_spec(s, t);
        (seq![text] + rest_j.0, rest_j.1)
    }
}

/// The position the tokenizer reports stays within the input.
pub proof fn lemma_parse_pos(s: Seq<char>, i: int)
    requires
        0 <= i <= s.len(),
    ensures
        i <= parse_spec(s, i).1 <= s.len(),
    decreases s.len() - i,
{
    let n = s.len() as int;
    if i < n {
        if s[i] == '<' {
            if i + 5 < n {
                let c2 = s[i + 5];
                if c2 == '>' {
                    lemma_parse_pos(s, i + 6);
                    let j1 = clamp(i + 6, parse_spec(s, i + 6).1, n);
                    lemma_parse_pos(s, clamp(i + 7, j1 + 1, n));
                } else if c2 == 'n' {
                } else {
                    let m3 = clamp(i + 1, i + 13, n);
                    let e = clamp(m3, find_char(s, m3, '"'), n);
                    let m4 = clamp(m3, e + 2, n);
                    lemma_parse_pos(s, m4);
                    let j1 = clamp(m4, parse_spec(s, m4).1, n);
                    lemma_parse_pos(s, clamp(m4 + 1, j1 + 1, n));
                }
            }
        } else {
            let t = clamp(i + 1, find_char(s, i + 1, '<'), n);
            lemma_parse_pos(s, t);
        }
    }
}

/// Tokenize the markup of `src` whole.
pub fn parse_html(src: String) -> (r: Vec<Token>)
    ensures
        r.deep_view() == parse_spec(src@, 0).0,
{
    let st = src.as_str();
    let n = st.unicode_len();
    let (toks, _) = parse_items(st, n, 0);
    toks
}

/// Tokenize one scope, starting at position `i`.
#[verifier::loop_isolation(false)]
fn parse_items(st: &str, n: usize, i: usize) -> (ret: (Vec<Token>, usize))
    requires
        n == st@.len(),
        i <= n,
    ensures
        ret.0.deep_view() == parse_spec(st@, i as int).0,
        ret.1 as int == parse_spec(st@, i as int).1,
        i <= ret.1 <= n,
    decreases n - i,
{
    let ghost gn = st@.len() as int;
    if i == n {
        let r: Vec<Token> = Vec::new();
        proof {
            assert(r.deep_view() =~= parse_spec(st@, i as int).0);
        }
        return (r, i);
    }
    let c = st.get_char(i);
    if c == '<' {
        if n - i <= 5 {
            let mut v: Vec<Token> = Vec::new();
            v.push(Token::Element { classes: Vec::new(), children: Vec::new() });
            proof {
                assert(v@[0]@ == (TokenModel::Element {
                    classes: Seq::<Seq<char>>::empty(),
                    children: Seq::<TokenModel>::empty(),
                })) by {
                    assert(v@[0]->Element_classes.deep_view() =~= Seq::<Seq<char>>::empty());
                    assert(toks_model_from(v@[0]->Element_children@, 0) =~= Seq::<
                        TokenModel,
                    >::empty());
                }
                assert(v.deep_view() =~= parse_spec(st@, i as int).0);
            }
            return (v, n);
        }
        let c2 = st.get_char(i + 5);
        if c2 == '>' {
            let (children, j0) = parse_items(st, n, i + 6);
            let next = if j0 >= n {
                n
            } else {
                j0 + 1
            };
            let (rest, j2) = parse_items(st, n, next);
            let ghost childm = children.deep_view();
            let mut v: Vec<Token> = Vec::new();
            v.push(Token::Element { classes: Vec::new(), children });
            let mut rest2 = rest;
            let ghost restm = rest2.deep_view();
            v.append(&mut rest2);
            proof {
                assert(clamp(i as int + 6, j0 as int, gn) == j0 as int);
                assert(clamp(i as int + 7, j0 as int + 1, gn) == next as int);
                let elem = TokenModel::Element { classes: Seq::empty(), children: toks_model_from(v@[0]->Element_children@, 0) };
                lemma_toks_model(v@[0]->Element_children@);
                assert(toks_model_from(v@[0]->Element_children@, 0) =~= childm) by {
                    assert(forall|k: int|
                        0 <= k < childm.len() ==> childm[k] == v@[0]->Element_children@[k]@);
                }
                assert(v@[0]->Element_classes.deep_view() =~= Seq::<Seq<char>>::empty());
                assert(v.deep_view() =~= seq![v@[0]@] + restm);
                assert(v.deep_view() =~= parse_spec(st@, i as int).0);
            }
            return (v, j2);
        } else if c2 == 'n' {
            let r: Vec<Token> = Vec::new();
            proof {
                assert(r.deep_view() =~= parse_spec(st@, i as int).0);
            }
            return (r, i + 6);
        } else {
            let m3 = if n - i > 13 {
                i + 13
            } else {
                n
            };
            let mut e = m3;
            while e < n
                invariant
                    m3 <= e <= n,
                    forall|k: int| m3 <= k < e ==> st@[k] != '"',
                decreases n - e,
            {
                if st.get_char(e) == '"' {
                    break;
                }
                e = e + 1;
            }
            proof {
                lemma_find_char_pins(st@, m3 as int, e as int, '"');
                assert(clamp(i as int + 1, i as int + 13, gn) == m3 as int);
                assert(clamp(m3 as int, find_char(st@, m3 as int, '"'), gn) == e as int);
            }
            let cls = st.substring_char(m3, e);
            let classes = split_whitespace_words(cls);
            let m4 = if n - e > 2 {
                e + 2
            } else {
                n
            };
            let (children, j0) = parse_items(st, n, m4);
            let next = if j0 >= n {
                n
            } else {
                j0 + 1
            };
            let (rest, j2) = parse_items(st, n, next);
            let ghost childm = children.deep_view();
            let ghost clsm = classes.deep_view();
            let mut v: Vec<Token> = Vec::new();
            v.push(Token::Element { classes, children });
            let mut rest2 = rest;
            let ghost restm = rest2.deep_view();
            v.append(&mut rest2);
            proof {
                assert(cls@ =~= st@.subrange(m3 as int, e as int));
                assert(clamp(m3 as int, e as int + 2, gn) == m4 as int);
                assert(clamp(m4 as int, j0 as int, gn) == j0 as int);
                assert(clamp(m4 as int + 1, j0 as int + 1, gn) == next as int);
                lemma_toks_model(v@[0]->Element_children@);
                assert(toks_model_from(v@[0]->Element_children@, 0) =~= childm) by {
                    assert(forall|k: int|
                        0 <= k < childm.len() ==> childm[k] == v@[0]->Element_children@[k]@);
                }
                assert(v@[0]->Element_classes.deep_view() =~= clsm);
                assert(v.deep_view() =~= seq![v@[0]@] + restm);
                assert(v.deep_view() =~= parse_spec(st@, i as int).0);
            }
            return (v, j2);
        }
    } else {
        let mut t = i + 1;
        while t < n
            invariant
                i + 1 <= t <= n,
                forall|k: int| i + 1 <= k < t ==> st@[k] != '<',
            decreases n - t,
        {
            if st.get_char(t) == '<' {
                break;
            }
            t = t + 1;
        }
        proof {
            lemma_find_char_pins(st@, i as int + 1, t as int, '<');
            assert(clamp(i as int + 1, find_char(st@, i as int + 1, '<'), gn) == t as int);
        }
        let raw = crate::strutil::copy_range(st, i, t);
        let text = replace_reserved(raw);
        let (rest, j) = parse_items(st, n, t);
        let mut v: Vec<Token> = Vec::new();
        v.push(Token::Text(text));
        let mut rest2 = rest;
        let ghost restm = rest2.deep_view();
        v.append(&mut rest2);
        proof {
            assert(v.deep_view() =~= seq![v@[0]@] + restm);
            assert(v.deep_view() =~= parse_spec(st@, i as int).0);
        }
        return (v, j);
    }
}

/// A scan that stopped at the first occurrence of `c` (or the end) pins
/// down `find_char`.
proof fn lemma_find_char_pins(s: Seq<char>, from: int, e: int, c: char)
    requires
        0 <= from <= e <= s.len(),
        forall|k: int| from <= k < e ==> s[k] != c,
        e < s.len() ==> s[e] == c,
    ensures
        find_char(s, from, c) == e,
    decreases e - from,
{
    if from < e {
        lemma_find_char_pins(s, from + 1, e, c);
    }
}

/// The runs a token expands to: text keeps the ambient style; an element
/// resolves its own class list against the style tree and that resolved
/// style becomes the ambient style of its children.
pub open spec fn expand_spec(t: TokenModel, style: Style, tree: StyleModel) -> Seq<RunModel>
    decreases t, 0int,
{
    match t {
        TokenModel::Text(txt) => seq![RunModel { text: txt, style }],
        TokenModel::Element { classes, children } => expand_seq_from(
            children,
            0,
            get_spec(tree, classes),
            tree,
        ),
    }
}

/// The runs of the tokens of `ts` from position `i` on, concatenated.
pub open spec fn expand_seq_from(
    ts: Seq<TokenModel>,
    i: int,
    style: Style,
    tree: StyleModel,
) -> Seq<RunModel>
    decreases ts, ts.len() - i,
{
    if i < 0 || i >= ts.len() {
        Seq::empty()
    } else {
        expand_spec(ts[i], style, tree) + expand_seq_from(ts, i + 1, style, tree)
    }
}

impl Token {
    /// Expand a token into styled runs appended to `out`.  `style` is the
    /// ambient style for raw text; elements look their class list up in
    /// `style_map` and pass the answer down.
    #[verifier::loop_isolation(false)]
    pub fn expand(&self, out: &mut Vec<StyledRun>, style: Style, style_map: &StyleElement)
        ensures
            final(out).deep_view() == old(out).deep_view() + expand_spec(self@, style, style_map@),
        decreases *self,
    {
        match self {
            Token::Text(t) => {
                out.push(StyledRun { text: t.clone(), style });
                proof {
                    assert(final(out).deep_view() =~= old(out).deep_view() + expand_spec(
                        self@,
                        style,
                        style_map@,
                    ));
                }
            },
            Token::Element { classes, children } => {
                let resolved = style_map.get_style(classes);
                let ghost ts = toks_model_from(children@, 0);
                proof {
                    lemma_toks_model(children@);
                }
                let m = children.len();
                let mut j: usize = 0;
                proof {
                    assert(out.deep_view() + expand_seq_from(ts, 0, resolved, style_map@)
                        =~= old(out).deep_view() + expand_seq_from(ts, 0, resolved, style_map@));
                }
                while j < m
                    invariant
                        j <= m,
                        out.deep_view() + expand_seq_from(ts, j as int, resolved, style_map@)
                            == old(out).deep_view() + expand_seq_from(ts, 0, resolved, style_map@),
                    decreases m - j,
                {
                    let ghost before = out.deep_view();
                    children[j].expand(out, resolved, style_map);
                    proof {
                        assert(children@[j as int]@ == ts[j as int]);
                        assert(out.deep_view() + expand_seq_from(ts, j as int + 1, resolved, style_map@)
                            =~= before + expand_seq_from(ts, j as int, resolved, style_map@));
                    }
                    j = j + 1;
                }
                proof {
                    assert(expand_seq_from(ts, m as int, resolved, style_map@) =~= Seq::<
                        RunModel,
                    >::empty());
                    assert(out.deep_view() =~= old(out).deep_view() + expand_spec(
                        self@,
                        style,
                        style_map@,
                    ));
                }
            },
        }
    }
}

} // verus!
