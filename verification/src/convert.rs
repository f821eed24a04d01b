//! Recursive conversion of a generic element tree into layout blocks.
//!
//! The input is the tag/classes/children/text tree an upstream markup
//! parser produces; the output is this crate's [`LayoutBlock`] tree.
//! Headings, paragraphs, ordered and unordered lists, fenced code and
//! tables are recognised by tag name; unknown tags and loose text at the
//! block level are dropped.  Inline emphasis composes positionally:
//! `strong` inside `em` yields bold italic.  Code blocks go through the
//! highlighter pipeline when markup for them is supplied, and fall back
//! to plain unstyled lines otherwise.

use vstd::prelude::*;

use crate::config::font_size_get;
use crate::config::FontSize;
use crate::strutil::decode_entities;
use crate::strutil::find_char;
use crate::strutil::replace_reserved;
use crate::strutil::remove_newlines;
use crate::strutil::str_eq;
use crate::reflow::to_block;
use crate::reflow::to_block_spec;
use crate::style::empty_style;
use crate::style::RunModel;
use crate::style::Style;
use crate::style::StyledRun;
use crate::styletree::StyleElement;
use crate::styletree::StyleModel;
use crate::token::clamp;

verus! {

/// A node of the generic document tree handed in by the caller: either
/// literal text or a tagged element with classes and children.
#[derive(Debug, PartialEq)]
pub enum ElementNode {
    /// Literal character data, entities still encoded.
    Text(String),
    /// A tagged element.
    Element { tag: String, classes: Vec<String>, children: Vec<ElementNode> },
}

/// The mathematical value of an [`ElementNode`].
#[verifier::ext_equal]
pub enum NodeModel {
    Text(Seq<char>),
    Element { tag: Seq<char>, classes: Seq<Seq<char>>, children: Seq<NodeModel> },
}

/// The model of the nodes of `s` from position `i` on.
pub open spec fn nodes_model_from(s: Seq<ElementNode>, i: int) -> Seq<NodeModel>
    decreases s, s.len() - i,
{
    if i < 0 || i >= s.len() {
        Seq::empty()
    } else {
        seq![s[i]@] + nodes_model_from(s, i + 1)
    }
}

/// `nodes_model_from(s, 0)` is the pointwise model of `s`.
pub proof fn lemma_nodes_model(s: Seq<ElementNode>)
    ensures
        nodes_model_from(s, 0).len() == s.len(),
        forall|j: int| 0 <= j < s.len() ==> nodes_model_from(s, 0)[j] == s[j]@,
{
    lemma_nodes_model_from(s, 0);
}

proof fn lemma_nodes_model_from(s: Seq<ElementNode>, i: int)
    requires
        0 <= i <= s.len(),
    ensures
        nodes_model_from(s, i).len() == s.len() - i,
        forall|j: int| 0 <= j < s.len() - i ==> nodes_model_from(s, i)[j] == s[i + j]@,
    decreases s.len() - i,
{
    if i < s.len() {
        lemma_nodes_model_from(s, i + 1);
        assert(nodes_model_from(s, i) == seq![s[i]@] + nodes_model_from(s, i + 1));
        assert forall|j: int| 0 <= j < s.len() - i implies nodes_model_from(s, i)[j] == s[i + j]@ by {
            if j > 0 {
                assert(nodes_model_from(s, i)[j] == nodes_model_from(s, i + 1)[j - 1]);
            }
        }
    } else {
        assert(nodes_model_from(s, i) =~= Seq::empty());
    }
}

impl View for ElementNode {
    type V = NodeModel;

    open spec fn view(&self) -> NodeModel
        decreases self,
    {
        match self {
            ElementNode::Text(t) => NodeModel::Text(t@),
            ElementNode::Element { tag, classes, children } => NodeModel::Element {
                tag: tag@,
                classes: classes.deep_view(),
                children: nodes_model_from(children@, 0),
            },
        }
    }
}

impl DeepView for ElementNode {
    type V = NodeModel;

    open spec fn deep_view(&self) -> NodeModel {
        self@
    }
}

/// A block-level unit of the laid-out document.
#[derive(Debug, PartialEq)]
pub enum LayoutBlock {
    /// A heading of the given level with its inline runs.
    Heading { level: u8, runs: Vec<StyledRun> },
    /// A paragraph of inline runs.
    Paragraph(Vec<StyledRun>),
    /// An ordered or unordered list; each item is one block.
    List { ordered: bool, items: Vec<LayoutBlock> },
    /// Styled code lines.
    CodeBlock(Vec<Vec<StyledRun>>),
    /// A table of equal-length rows with relative column weights.
    Table { rows: Vec<Vec<LayoutBlock>>, weights: Vec<u64> },
    /// A vertical stack of blocks, used for multi-line list items and
    /// table cells.
    Stack(Vec<LayoutBlock>),
}

/// The mathematical value of a [`LayoutBlock`].
#[verifier::ext_equal]
pub enum BlockModel {
    Heading { level: u8, runs: Seq<RunModel> },
    Paragraph(Seq<RunModel>),
    List { ordered: bool, items: Seq<BlockModel> },
    CodeBlock(Seq<Seq<RunModel>>),
    Table { rows: Seq<Seq<BlockModel>>, weights: Seq<u64> },
    Stack(Seq<BlockModel>),
}

/// The model of the blocks of `s` from position `i` on.
pub open spec fn blocks_model_from(s: Seq<LayoutBlock>, i: int) -> Seq<BlockModel>
    decreases s, s.len() - i,
{
    if i < 0 || i >= s.len() {
        Seq::empty()
    } else {
        seq![s[i]@] + blocks_model_from(s, i + 1)
    }
}

/// The model of the block rows of `s` from position `i` on.
pub open spec fn rows_model_from(s: Seq<Vec<LayoutBlock>>, i: int) -> Seq<Seq<BlockModel>>
    decreases s, s.len() - i,
{
    if i < 0 || i >= s.len() {
        Seq::empty()
    } else {
        seq![blocks_model_from(s[i]@, 0)] + rows_model_from(s, i + 1)
    }
}

/// `blocks_model_from(s, 0)` is the pointwise model of `s`.
pub proof fn lemma_blocks_model(s: Seq<LayoutBlock>)
    ensures
        blocks_model_from(s, 0).len() == s.len(),
        forall|j: int| 0 <= j < s.len() ==> blocks_model_from(s, 0)[j] == s[j]@,
{
    lemma_blocks_model_from(s, 0);
}

proof fn lemma_blocks_model_from(s: Seq<LayoutBlock>, i: int)
    requires
        0 <= i <= s.len(),
    ensures
        blocks_model_from(s, i).len() == s.len() - i,
        forall|j: int| 0 <= j < s.len() - i ==> blocks_model_from(s, i)[j] == s[i + j]@,
    decreases s.len() - i,
{
    if i < s.len() {
        lemma_blocks_model_from(s, i + 1);
        assert(blocks_model_from(s, i) == seq![s[i]@] + blocks_model_from(s, i + 1));
        assert forall|j: int| 0 <= j < s.len() - i implies blocks_model_from(s, i)[j] == s[i
            + j]@ by {
            if j > 0 {
                assert(blocks_model_from(s, i)[j] == blocks_model_from(s, i + 1)[j - 1]);
            }
        }
    } else {
        assert(blocks_model_from(s, i) =~= Seq::empty());
    }
}

/// `rows_model_from(s, 0)` is the pointwise model of `s`.
pub proof fn lemma_rows_model(s: Seq<Vec<LayoutBlock>>)
    ensures
        rows_model_from(s, 0).len() == s.len(),
        forall|j: int| 0 <= j < s.len() ==> rows_model_from(s, 0)[j] == blocks_model_from(s[j]@, 0),
{
    lemma_rows_model_from(s, 0);
}

proof fn lemma_rows_model_from(s: Seq<Vec<LayoutBlock>>, i: int)
    requires
        0 <= i <= s.len(),
    ensures
        rows_model_from(s, i).len() == s.len() - i,
        forall|j: int|
            0 <= j < s.len() - i ==> rows_model_from(s, i)[j] == blocks_model_from(s[i + j]@, 0),
    decreases s.len() - i,
{
    if i < s.len() {
        lemma_rows_model_from(s, i + 1);
        assert(rows_model_from(s, i) == seq![blocks_model_from(s[i]@, 0)] + rows_model_from(
            s,
            i + 1,
        ));
        assert forall|j: int| 0 <= j < s.len() - i implies rows_model_from(s, i)[j]
            == blocks_model_from(s[i + j]@, 0) by {
            if j > 0 {
                assert(rows_model_from(s, i)[j] == rows_model_from(s, i + 1)[j - 1]);
            }
        }
    } else {
        assert(rows_model_from(s, i) =~= Seq::empty());
    }
}

impl View for LayoutBlock {
    type V = BlockModel;

    open spec fn view(&self) -> BlockModel
        decreases self, 0int,
    {
        match self {
            LayoutBlock::Heading { level, runs } => BlockModel::Heading {
                level: *level,
                runs: runs.deep_view(),
            },
            LayoutBlock::Paragraph(runs) => BlockModel::Paragraph(runs.deep_view()),
            LayoutBlock::List { ordered, items } => BlockModel::List {
                ordered: *ordered,
                items: blocks_model_from(items@, 0),
            },
            LayoutBlock::CodeBlock(lines) => BlockModel::CodeBlock(lines.deep_view()),
            LayoutBlock::Table { rows, weights } => BlockModel::Table {
                rows: rows_model_from(rows@, 0),
                weights: weights@,
            },
            LayoutBlock::Stack(items) => BlockModel::Stack(blocks_model_from(items@, 0)),
        }
    }
}

impl DeepView for LayoutBlock {
    type V = BlockModel;

    open spec fn deep_view(&self) -> BlockModel {
        self@
    }
}

/// Whether `t` contains a newline character.
pub open spec fn has_newline(t: Seq<char>) -> bool {
    find_char(t, 0, '\n') < t.len()
}

/// Whether any text anywhere under `n` contains a newline.
pub open spec fn node_multiline(n: NodeModel) -> bool
    decreases n, 0int,
{
    match n {
        NodeModel::Text(t) => has_newline(t),
        NodeModel::Element { children, .. } => nodes_multiline_from(children, 0),
    }
}

/// Whether any text under the nodes of `s` from position `i` on contains
/// a newline.
pub open spec fn nodes_multiline_from(s: Seq<NodeModel>, i: int) -> bool
    decreases s, s.len() - i,
{
    if i < 0 || i >= s.len() {
        false
    } else {
        node_multiline(s[i]) || nodes_multiline_from(s, i + 1)
    }
}

/// Check whether a section contains an embedded line break.  Lists and
/// tables use this to pick between the single-paragraph and the stacked
/// block form for their items and cells.
pub fn is_multiline(children: &Vec<ElementNode>) -> (r: bool)
    ensures
        r == nodes_multiline_from(children.deep_view(), 0),
{
    node_list_multiline(children, 0)
}

/// Multi-line check over the nodes from position `i` on.
#[verifier::loop_isolation(false)]
fn node_list_multiline(children: &Vec<ElementNode>, i: usize) -> (r: bool)
    requires
        i <= children@.len(),
    ensures
        r == nodes_multiline_from(children.deep_view(), i as int),
    decreases children@, children@.len() - i,
{
    proof {
        lemma_nodes_model(children@);
    }
    if i == children.len() {
        return false;
    }
    proof {
        assert(children.deep_view()[i as int] == children@[i as int]@);
    }
    let here = match &children[i] {
        ElementNode::Text(t) => {
            let st = t.as_str();
            let n = st.unicode_len();
            let mut k: usize = 0;
            let mut found = false;
            proof {
                crate::strutil::lemma_find_char(st@, 0, '\n');
            }
            while k < n
                invariant
                    k <= n,
                    !found,
                    find_char(st@, 0, '\n') >= k,
                decreases n - k,
            {
                if st.get_char(k) == '\n' {
                    proof {
                        lemma_newline_found(st@, k as int);
                    }
                    found = true;
                    break;
                }
                k = k + 1;
                proof {
                    lemma_newline_not_before(st@, k as int);
                }
            }
            found
        },
        ElementNode::Element { children: sub, .. } => {
            let r = node_list_multiline(sub, 0);
            proof {
                lemma_nodes_model(sub@);
                assert(nodes_model_from(sub@, 0) =~= sub.deep_view());
            }
            r
        },
    };
    proof {
        assert(here == node_multiline(children.deep_view()[i as int]));
    }
    if here {
        return true;
    }
    node_list_multiline(children, i + 1)
}

/// If `s[k]` is a newline and nothing before it is, the first newline is
/// at or before `k`.
proof fn lemma_newline_found(s: Seq<char>, k: int)
    requires
        0 <= k < s.len(),
        s[k] == '\n',
        find_char(s, 0, '\n') >= k,
    ensures
        find_char(s, 0, '\n') < s.len(),
        find_char(s, 0, '\n') <= k,
{
    crate::strutil::lemma_find_char(s, 0, '\n');
    if find_char(s, 0, '\n') > k {
        assert(s[k] != '\n');
    }
}

/// If positions before `k` hold no newline, the first newline is at `k`
/// or later.
proof fn lemma_newline_not_before(s: Seq<char>, k: int)
    requires
        0 < k <= s.len(),
        find_char(s, 0, '\n') >= k - 1,
        s[k - 1] != '\n',
    ensures
        find_char(s, 0, '\n') >= k,
{
    crate::strutil::lemma_find_char(s, 0, '\n');
}

/// Saturating addition within the width counter's range.
pub open spec fn sat_add(a: int, b: int) -> int {
    if a + b > 0xffff_ffff_ffff_ffff {
        0xffff_ffff_ffff_ffff
    } else {
        a + b
    }
}

/// The character count of the text under `n`, saturating.
pub open spec fn node_text_len(n: NodeModel) -> int
    decreases n, 0int,
{
    match n {
        NodeModel::Text(t) => if t.len() > 0xffff_ffff_ffff_ffff {
            0xffff_ffff_ffff_ffff as int
        } else {
            t.len() as int
        },
        NodeModel::Element { children, .. } => nodes_text_len_from(children, 0),
    }
}

/// The cumulative character count of the nodes of `s` from position `i`
/// on, saturating.
pub open spec fn nodes_text_len_from(s: Seq<NodeModel>, i: int) -> int
    decreases s, s.len() - i,
{
    if i < 0 || i >= s.len() {
        0
    } else {
        sat_add(node_text_len(s[i]), nodes_text_len_from(s, i + 1))
    }
}

/// Count the characters of all text contained under `children`; the
/// count saturates rather than overflowing.
pub fn count_string_length(children: &Vec<ElementNode>) -> (r: u64)
    ensures
        r as int == nodes_text_len_from(children.deep_view(), 0),
{
    count_from(children, 0)
}

/// Saturating exec addition.
fn sat_add_u64(a: u64, b: u64) -> (r: u64)
    ensures
        r as int == sat_add(a as int, b as int),
{
    if a > 0xffff_ffff_ffff_ffff - b {
        0xffff_ffff_ffff_ffff
    } else {
        a + b
    }
}

/// Count over the nodes from position `i` on.
fn count_from(children: &Vec<ElementNode>, i: usize) -> (r: u64)
    requires
        i <= children@.len(),
    ensures
        r as int == nodes_text_len_from(children.deep_view(), i as int),
    decreases children@, children@.len() - i,
{
    proof {
        lemma_nodes_model(children@);
    }
    if i == children.len() {
        return 0;
    }
    proof {
        assert(children.deep_view()[i as int] == children@[i as int]@);
    }
    let here: u64 = match &children[i] {
        ElementNode::Text(t) => {
            let n = t.as_str().unicode_len();
            n as u64
        },
        ElementNode::Element { children: sub, .. } => {
            let r = count_from(sub, 0);
            proof {
                lemma_nodes_model(sub@);
                assert(nodes_model_from(sub@, 0) =~= sub.deep_view());
            }
            r
        },
    };
    let rest = count_from(children, i + 1);
    proof {
        assert(rest as int == nodes_text_len_from(children.deep_view(), i as int + 1));
        assert(here as int == node_text_len(children.deep_view()[i as int]));
        assert(nodes_text_len_from(children.deep_view(), i as int) == sat_add(
            node_text_len(children.deep_view()[i as int]),
            nodes_text_len_from(children.deep_view(), i as int + 1),
        ));
    }
    sat_add_u64(here, rest)
}


/// The inline runs of one node: text joins with the ambient style, and
/// the nesting elements adjust it — `strong` sets bold, `em` italic,
/// `code` switches to the monospace family — while `p` and `a` pass it
/// through.  Unknown tags contribute nothing.
pub open spec fn inline_node(n: NodeModel, style: Style, mono: u32) -> Seq<RunModel>
    decreases n, 0int,
{
    match n {
        NodeModel::Text(t) => seq![
            RunModel { text: decode_entities(crate::strutil::strip_newlines(t)), style },
        ],
        NodeModel::Element { tag, children, .. } => {
            if tag == "p"@ || tag == "a"@ {
                inline_from(children, 0, style, mono)
            } else if tag == "strong"@ {
                inline_from(children, 0, Style { bold: true, ..style }, mono)
            } else if tag == "em"@ {
                inline_from(children, 0, Style { italic: true, ..style }, mono)
            } else if tag == "code"@ {
                inline_from(children, 0, Style { font_family: Some(mono), ..style }, mono)
            } else {
                Seq::empty()
            }
        },
    }
}

/// The inline runs of the nodes of `s` from position `i` on.
pub open spec fn inline_from(s: Seq<NodeModel>, i: int, style: Style, mono: u32) -> Seq<RunModel>
    decreases s, s.len() - i,
{
    if i < 0 || i >= s.len() {
        Seq::empty()
    } else {
        inline_node(s[i], style, mono) + inline_from(s, i + 1, style, mono)
    }
}

/// The block form of one inline node: the same content as
/// [`inline_node`], but each recognised child becomes a paragraph of its
/// own.
pub open spec fn block_node(n: NodeModel, style: Style, mono: u32) -> Seq<BlockModel>
    decreases n, 0int,
{
    match n {
        NodeModel::Text(t) => seq![
            BlockModel::Paragraph(
                seq![RunModel { text: decode_entities(crate::strutil::strip_newlines(t)), style }],
            ),
        ],
        NodeModel::Element { tag, children, .. } => {
            if tag == "p"@ || tag == "a"@ {
                seq![BlockModel::Paragraph(inline_from(children, 0, style, mono))]
            } else if tag == "strong"@ {
                seq![
                    BlockModel::Paragraph(
                        inline_from(children, 0, Style { bold: true, ..style }, mono),
                    ),
                ]
            } else if tag == "em"@ {
                seq![
                    BlockModel::Paragraph(
                        inline_from(children, 0, Style { italic: true, ..style }, mono),
                    ),
                ]
            } else if tag == "code"@ {
                seq![
                    BlockModel::Paragraph(
                        inline_from(children, 0, Style { font_family: Some(mono), ..style }, mono),
                    ),
                ]
            } else {
                Seq::empty()
            }
        },
    }
}

/// The block-form paragraphs of the nodes of `s` from position `i` on.
pub open spec fn block_from(s: Seq<NodeModel>, i: int, style: Style, mono: u32) -> Seq<BlockModel>
    decreases s, s.len() - i,
{
    if i < 0 || i >= s.len() {
        Seq::empty()
    } else {
        block_node(s[i], style, mono) + block_from(s, i + 1, style, mono)
    }
}

/// Collect the inline runs of a paragraph's children.  `monospace` is
/// the font family that `code` elements switch to.
#[verifier::loop_isolation(false)]
pub fn paragraph(children: &Vec<ElementNode>, style: Style, monospace: u32) -> (r: Vec<StyledRun>)
    ensures
        r.deep_view() == inline_from(children.deep_view(), 0, style, monospace),
    decreases children@,
{
    let ghost dv = children.deep_view();
    let mut out: Vec<StyledRun> = Vec::new();
    let n = children.len();
    let mut j: usize = 0;
    proof {
        assert(out.deep_view() =~= Seq::<RunModel>::empty());
        assert(out.deep_view() + inline_from(dv, 0, style, monospace) =~= inline_from(
            dv,
            0,
            style,
            monospace,
        ));
    }
    while j < n
        invariant
            j <= n,
            out.deep_view() + inline_from(dv, j as int, style, monospace) == inline_from(
                dv,
                0,
                style,
                monospace,
            ),
        decreases n - j,
    {
        let ghost before = out.deep_view();
        proof {
            assert(dv[j as int] == children@[j as int]@);
        }
        match &children[j] {
            ElementNode::Text(t) => {
                let cleaned = replace_reserved(remove_newlines(t.as_str()));
                out.push(StyledRun { text: cleaned, style });
                proof {
                    assert(out.deep_view() =~= before + inline_node(dv[j as int], style, monospace));
                }
            },
            ElementNode::Element { tag, children: sub, .. } => {
                let sub_style = if str_eq(tag.as_str(), "p") || str_eq(tag.as_str(), "a") {
                    Some(style)
                } else if str_eq(tag.as_str(), "strong") {
                    Some(style.bold())
                } else if str_eq(tag.as_str(), "em") {
                    Some(style.italic())
                } else if str_eq(tag.as_str(), "code") {
                    Some(style.with_font_family(monospace))
                } else {
                    None
                };
                if let Some(st) = sub_style {
                    let mut inner = paragraph(sub, st, monospace);
                    let ghost innerm = inner.deep_view();
                    out.append(&mut inner);
                    proof {
                        lemma_nodes_model(sub@);
                        assert(nodes_model_from(sub@, 0) =~= sub.deep_view());
                        assert(innerm == inline_node(dv[j as int], style, monospace));
                        assert(out.deep_view() =~= before + innerm);
                    }
                } else {
                    proof {
                        assert(inline_node(dv[j as int], style, monospace) =~= Seq::<
                            RunModel,
                        >::empty());
                        assert(out.deep_view() =~= before + inline_node(dv[j as int], style, monospace));
                    }
                }
            },
        }
        proof {
            assert(out.deep_view() + inline_from(dv, j as int + 1, style, monospace) =~= before
                + inline_from(dv, j as int, style, monospace));
        }
        j = j + 1;
    }
    proof {
        assert(inline_from(dv, n as int, style, monospace) =~= Seq::<RunModel>::empty());
        assert(out.deep_view() =~= inline_from(dv, 0, style, monospace));
    }
    out
}

/// Convert inline content into block form: each recognised child becomes
/// its own paragraph block.
#[verifier::loop_isolation(false)]
pub fn block(children: &Vec<ElementNode>, style: Style, monospace: u32) -> (r: Vec<LayoutBlock>)
    ensures
        r.deep_view() == block_from(children.deep_view(), 0, style, monospace),
    decreases children@,
{
    let ghost dv = children.deep_view();
    let mut out: Vec<LayoutBlock> = Vec::new();
    let n = children.len();
    let mut j: usize = 0;
    proof {
        assert(out.deep_view() =~= Seq::<BlockModel>::empty());
        assert(out.deep_view() + block_from(dv, 0, style, monospace) =~= block_from(
            dv,
            0,
            style,
            monospace,
        ));
    }
    while j < n
        invariant
            j <= n,
            out.deep_view() + block_from(dv, j as int, style, monospace) == block_from(
                dv,
                0,
                style,
                monospace,
            ),
        decreases n - j,
    {
        let ghost before = out.deep_view();
        proof {
            assert(dv[j as int] == children@[j as int]@);
        }
        match &children[j] {
            ElementNode::Text(t) => {
                let cleaned = replace_reserved(remove_newlines(t.as_str()));
                let ghost cm = cleaned@;
                let mut runs: Vec<StyledRun> = Vec::new();
                runs.push(StyledRun { text: cleaned, style });
                proof {
                    assert(runs.deep_view() =~= seq![RunModel { text: cm, style }]);
                }
                out.push(LayoutBlock::Paragraph(runs));
                proof {
                    assert(out.deep_view() =~= before + block_node(dv[j as int], style, monospace));
                }
            },
            ElementNode::Element { tag, children: sub, .. } => {
                let sub_style = if str_eq(tag.as_str(), "p") || str_eq(tag.as_str(), "a") {
                    Some(style)
                } else if str_eq(tag.as_str(), "strong") {
                    Some(style.bold())
                } else if str_eq(tag.as_str(), "em") {
                    Some(style.italic())
                } else if str_eq(tag.as_str(), "code") {
                    Some(style.with_font_family(monospace))
                } else {
                    None
                };
                if let Some(st) = sub_style {
                    let inner = paragraph(sub, st, monospace);
                    let ghost innerm = inner.deep_view();
                    out.push(LayoutBlock::Paragraph(inner));
                    proof {
                        lemma_nodes_model(sub@);
                        assert(nodes_model_from(sub@, 0) =~= sub.deep_view());
                        assert(block_node(dv[j as int], style, monospace) =~= seq![
                            BlockModel::Paragraph(innerm),
                        ]);
                        assert(out.deep_view() =~= before + block_node(dv[j as int], style, monospace));
                    }
                } else {
                    proof {
                        assert(block_node(dv[j as int], style, monospace) =~= Seq::<
                            BlockModel,
                        >::empty());
                        assert(out.deep_view() =~= before + block_node(dv[j as int], style, monospace));
                    }
                }
            },
        }
        proof {
            assert(out.deep_view() + block_from(dv, j as int + 1, style, monospace) =~= before
                + block_from(dv, j as int, style, monospace));
        }
        j = j + 1;
    }
    proof {
        assert(block_from(dv, n as int, style, monospace) =~= Seq::<BlockModel>::empty());
        assert(out.deep_view() =~= block_from(dv, 0, style, monospace));
    }
    out
}


/// Whether any element among the nodes of `s` from position `i` on has
/// multi-line content.  Only elements count: loose text between list
/// items does not drive the layout choice.
pub open spec fn elems_multiline_from(s: Seq<NodeModel>, i: int) -> bool
    decreases s, s.len() - i,
{
    if i < 0 || i >= s.len() {
        false
    } else {
        (match s[i] {
            NodeModel::Element { children, .. } => nodes_multiline_from(children, 0),
            NodeModel::Text(_) => false,
        }) || elems_multiline_from(s, i + 1)
    }
}

/// The list items made of the element nodes of `s` from position `i`
/// on: stacked blocks when `ml` holds, single paragraphs otherwise.
pub open spec fn list_items_from(
    s: Seq<NodeModel>,
    i: int,
    style: Style,
    mono: u32,
    ml: bool,
) -> Seq<BlockModel>
    decreases s, s.len() - i,
{
    if i < 0 || i >= s.len() {
        Seq::empty()
    } else {
        (match s[i] {
            NodeModel::Element { children, .. } => if ml {
                seq![BlockModel::Stack(block_from(children, 0, style, mono))]
            } else {
                seq![BlockModel::Paragraph(inline_from(children, 0, style, mono))]
            },
            NodeModel::Text(_) => Seq::empty(),
        }) + list_items_from(s, i + 1, style, mono, ml)
    }
}

/// What a list of the given orientation converts to.  If any item has an
/// embedded line break, every item takes the stacked block form.
pub open spec fn list_spec(s: Seq<NodeModel>, style: Style, mono: u32, ordered: bool) -> BlockModel {
    BlockModel::List {
        ordered,
        items: list_items_from(s, 0, style, mono, elems_multiline_from(s, 0)),
    }
}

/// One item with an embedded line break forces every item of the list
/// into the stacked block form, however short the others are.
pub proof fn lemma_list_uniform_block_form(s: Seq<NodeModel>, style: Style, mono: u32, ordered: bool)
    requires
        elems_multiline_from(s, 0),
    ensures
        forall|j: int|
            0 <= j < (list_spec(s, style, mono, ordered)->List_items).len() ==> (list_spec(
                s,
                style,
                mono,
                ordered,
            )->List_items)[j] is Stack,
{
    lemma_list_items_stack(s, 0, style, mono);
}

proof fn lemma_list_items_stack(s: Seq<NodeModel>, i: int, style: Style, mono: u32)
    requires
        0 <= i <= s.len(),
    ensures
        forall|j: int|
            0 <= j < list_items_from(s, i, style, mono, true).len() ==> list_items_from(
                s,
                i,
                style,
                mono,
                true,
            )[j] is Stack,
    decreases s.len() - i,
{
    if i < s.len() {
        lemma_list_items_stack(s, i + 1, style, mono);
        assert forall|j: int| 0 <= j < list_items_from(s, i, style, mono, true).len()
            implies list_items_from(s, i, style, mono, true)[j] is Stack by {
            let here = list_items_from(s, i, style, mono, true);
            let rest = list_items_from(s, i + 1, style, mono, true);
            match s[i] {
                NodeModel::Element { children, .. } => {
                    if j > 0 {
                        assert(here[j] == rest[j - 1]);
                    }
                },
                NodeModel::Text(_) => {
                    assert(here[j] == rest[j]);
                },
            }
        }
    }
}

/// Convert the children of a list element into a list block.  The list
/// switches every item to the stacked form as soon as one item has an
/// embedded line break.
#[verifier::loop_isolation(false)]
pub fn convert_list(
    children: &Vec<ElementNode>,
    style: Style,
    monospace: u32,
    ordered: bool,
) -> (r: LayoutBlock)
    ensures
        r@ == list_spec(children.deep_view(), style, monospace, ordered),
{
    let ghost dv = children.deep_view();
    let n = children.len();
    let mut ml = false;
    let mut j: usize = 0;
    while j < n
        invariant
            j <= n,
            (ml || elems_multiline_from(dv, j as int)) == elems_multiline_from(dv, 0),
        decreases n - j,
    {
        proof {
            assert(dv[j as int] == children@[j as int]@);
        }
        match &children[j] {
            ElementNode::Element { children: sub, .. } => {
                if is_multiline(sub) {
                    ml = true;
                }
                proof {
                    lemma_nodes_model(sub@);
                    assert(nodes_model_from(sub@, 0) =~= sub.deep_view());
                }
            },
            ElementNode::Text(_) => {},
        }
        j = j + 1;
    }
    proof {
        assert(!elems_multiline_from(dv, n as int));
        assert(ml == elems_multiline_from(dv, 0));
    }
    let mut items: Vec<LayoutBlock> = Vec::new();
    let mut k: usize = 0;
    proof {
        assert(items.deep_view() =~= Seq::<BlockModel>::empty());
        assert(items.deep_view() + list_items_from(dv, 0, style, monospace, ml)
            =~= list_items_from(dv, 0, style, monospace, ml));
    }
    while k < n
        invariant
            k <= n,
            items.deep_view() + list_items_from(dv, k as int, style, monospace, ml)
                == list_items_from(dv, 0, style, monospace, ml),
        decreases n - k,
    {
        let ghost before = items.deep_view();
        proof {
            assert(dv[k as int] == children@[k as int]@);
        }
        match &children[k] {
            ElementNode::Element { children: sub, .. } => {
                if ml {
                    let inner = block(sub, style, monospace);
                    let ghost innerm = inner.deep_view();
                    proof {
                        lemma_blocks_model(inner@);
                        assert(blocks_model_from(inner@, 0) =~= innerm);
                    }
                    items.push(LayoutBlock::Stack(inner));
                    proof {
                        lemma_nodes_model(sub@);
                        assert(nodes_model_from(sub@, 0) =~= sub.deep_view());
                        assert(items.deep_view() =~= before + list_items_from(
                            dv,
                            k as int,
                            style,
                            monospace,
                            ml,
                        ).take(1));
                        assert(list_items_from(dv, k as int, style, monospace, ml)[0]
                            == BlockModel::Stack(innerm));
                        assert(items.deep_view() =~= before + seq![BlockModel::Stack(innerm)]);
                    }
                } else {
                    let inner = paragraph(sub, style, monospace);
                    let ghost innerm = inner.deep_view();
                    items.push(LayoutBlock::Paragraph(inner));
                    proof {
                        lemma_nodes_model(sub@);
                        assert(nodes_model_from(sub@, 0) =~= sub.deep_view());
                        assert(items.deep_view() =~= before + seq![BlockModel::Paragraph(innerm)]);
                    }
                }
            },
            ElementNode::Text(_) => {},
        }
        proof {
            assert(items.deep_view() + list_items_from(dv, k as int + 1, style, monospace, ml)
                =~= before + list_items_from(dv, k as int, style, monospace, ml));
        }
        k = k + 1;
    }
    let ghost itemsm = items.deep_view();
    let r = LayoutBlock::List { ordered, items };
    proof {
        assert(list_items_from(dv, n as int, style, monospace, ml) =~= Seq::<BlockModel>::empty());
        assert(itemsm =~= list_items_from(dv, 0, style, monospace, ml));
        lemma_blocks_model(r->List_items@);
        assert(blocks_model_from(r->List_items@, 0) =~= itemsm);
        assert(r@ =~= list_spec(dv, style, monospace, ordered));
    }
    r
}

/// A line with its terminator's optional carriage return removed.
pub open spec fn drop_cr(x: Seq<char>) -> Seq<char> {
    if x.len() > 0 && x.last() == '\r' {
        x.drop_last()
    } else {
        x
    }
}

/// The lines of `t`: segments between newlines, with a carriage return
/// before each newline removed and no empty segment after a final
/// newline.
pub open spec fn split_lines(t: Seq<char>) -> Seq<Seq<char>>
    decreases t.len(),
{
    if t.len() == 0 {
        Seq::empty()
    } else {
        let k = clamp(0, find_char(t, 0, '\n'), t.len() as int);
        if k >= t.len() {
            seq![t]
        } else {
            seq![drop_cr(t.subrange(0, k))] + split_lines(t.skip(k + 1))
        }
    }
}

/// Each plain code line as a single unstyled run.
pub open spec fn lines_runs(ls: Seq<Seq<char>>) -> Seq<Seq<RunModel>> {
    ls.map_values(|l: Seq<char>| seq![RunModel { text: l, style: empty_style() }])
}

/// The source text a fenced code element carries: the first text child
/// of its first child.
pub open spec fn code_src(s: Seq<NodeModel>) -> Option<Seq<char>> {
    if s.len() > 0 {
        match s[0] {
            NodeModel::Element { children, .. } => if children.len() > 0 {
                match children[0] {
                    NodeModel::Text(t) => Some(t),
                    _ => None,
                }
            } else {
                None
            },
            _ => None,
        }
    } else {
        None
    }
}

/// Whether a class names a highlighting language.
pub open spec fn is_language_class(c: Seq<char>) -> bool {
    c.len() >= "language-"@.len() && c.subrange(0, "language-"@.len() as int) == "language-"@
}

/// The languages named among the classes from position `i` on: every
/// class starting `language-`, in order, minus that prefix.
pub open spec fn languages_from(classes: Seq<Seq<char>>, i: int) -> Seq<Seq<char>>
    decreases classes.len() - i,
{
    if i < 0 || i >= classes.len() {
        Seq::empty()
    } else {
        (if is_language_class(classes[i]) {
            seq![classes[i].skip("language-"@.len() as int)]
        } else {
            Seq::empty()
        }) + languages_from(classes, i + 1)
    }
}

/// The languages a fenced code element names: every `language-` class
/// of its first child, in order, minus the prefix.
pub open spec fn code_langs(s: Seq<NodeModel>) -> Seq<Seq<char>> {
    if s.len() > 0 {
        match s[0] {
            NodeModel::Element { classes, .. } => languages_from(classes, 0),
            _ => Seq::empty(),
        }
    } else {
        Seq::empty()
    }
}

/// The languages a fenced code element's children name, in the order
/// their classes list them.
#[verifier::loop_isolation(false)]
pub fn code_languages(children: &Vec<ElementNode>) -> (r: Vec<String>)
    ensures
        r.deep_view() == code_langs(children.deep_view()),
{
    let ghost dv = children.deep_view();
    let mut out: Vec<String> = Vec::new();
    if children.len() == 0 {
        proof {
            assert(out.deep_view() =~= code_langs(dv));
        }
        return out;
    }
    proof {
        assert(dv[0] == children@[0]@);
    }
    match &children[0] {
        ElementNode::Element { classes, .. } => {
            let ghost cm = classes.deep_view();
            let m = classes.len();
            let mut c: usize = 0;
            proof {
                assert(out.deep_view() =~= Seq::<Seq<char>>::empty());
                assert(out.deep_view() + languages_from(cm, 0) =~= languages_from(cm, 0));
            }
            while c < m
                invariant
                    c <= m,
                    out.deep_view() + languages_from(cm, c as int) == languages_from(cm, 0),
                decreases m - c,
            {
                let ghost before = out.deep_view();
                proof {
                    assert(cm[c as int] == classes@[c as int]@);
                }
                let cs = classes[c].as_str();
                let cn = cs.unicode_len();
                let pat = "language-";
                let pl = pat.unicode_len();
                if crate::strutil::match_prefix(cs, cn, 0, pat) {
                    let lang = crate::strutil::copy_range(cs, pl, cn);
                    let ghost lv = lang@;
                    out.push(lang);
                    proof {
                        assert(is_language_class(cm[c as int]));
                        assert(lv =~= cm[c as int].skip(pat@.len() as int));
                        assert(out.deep_view() =~= before + seq![lv]);
                    }
                } else {
                    proof {
                        assert(!is_language_class(cm[c as int]));
                    }
                }
                proof {
                    assert(out.deep_view() + languages_from(cm, c as int + 1) =~= before
                        + languages_from(cm, c as int));
                }
                c = c + 1;
            }
            proof {
                assert(languages_from(cm, m as int) =~= Seq::<Seq<char>>::empty());
                assert(out.deep_view() =~= languages_from(cm, 0));
            }
            out
        },
        ElementNode::Text(_) => {
            proof {
                assert(out.deep_view() =~= code_langs(dv));
            }
            out
        },
    }
}

/// The source text a fenced code element's children carry, if any: the
/// first text child of the first child.
pub fn code_source(children: &Vec<ElementNode>) -> (r: Option<&String>)
    ensures
        r.deep_view() == code_src(children.deep_view()),
{
    let ghost dv = children.deep_view();
    if children.len() == 0 {
        return None;
    }
    proof {
        assert(dv[0] == children@[0]@);
    }
    match &children[0] {
        ElementNode::Element { children: sub, .. } => {
            proof {
                lemma_nodes_model(sub@);
            }
            if sub.len() > 0 {
                match &sub[0] {
                    ElementNode::Text(t) => Some(t),
                    _ => None,
                }
            } else {
                None
            }
        },
        ElementNode::Text(_) => None,
    }
}

/// The unhighlighted fallback: the source split into unstyled lines.
pub open spec fn plain_code_spec(src: Option<Seq<char>>) -> Seq<Seq<RunModel>> {
    match src {
        Some(t) => lines_runs(split_lines(t)),
        None => Seq::empty(),
    }
}

/// What a fenced code element converts to: highlighter markup, when
/// supplied, goes through the tokenizer pipeline against the colour map;
/// otherwise the source text becomes plain unstyled lines.
pub open spec fn code_spec(
    children: Seq<NodeModel>,
    markup: Option<Seq<char>>,
    tree: StyleModel,
) -> BlockModel {
    match markup {
        Some(m) => BlockModel::CodeBlock(to_block_spec(m, tree)),
        None => BlockModel::CodeBlock(plain_code_spec(code_src(children))),
    }
}

/// Convert a fenced code element.  `markup` is what the highlighter
/// produced for its source, if any; `tree` is the colour map its classes
/// resolve against.
pub fn code(children: &Vec<ElementNode>, markup: &Option<String>, tree: &StyleElement) -> (r:
    LayoutBlock)
    ensures
        r@ == code_spec(children.deep_view(), markup.deep_view(), tree@),
{
    let ghost dv = children.deep_view();
    match markup {
        Some(m) => {
            let lines = to_block(m.clone(), tree);
            let ghost lm = lines.deep_view();
            let r = LayoutBlock::CodeBlock(lines);
            proof {
                assert(r@ =~= code_spec(dv, markup.deep_view(), tree@));
            }
            r
        },
        None => {
            let src = code_source(children);
            let lines = match src {
                Some(t) => plain_lines_from(t.as_str(), 0),
                None => Vec::new(),
            };
            let ghost lm = lines.deep_view();
            proof {
                match src {
                    Some(t) => {
                        assert(code_src(dv) == Some(t@));
                        assert(t@.skip(0) =~= t@);
                        assert(lm =~= plain_code_spec(code_src(dv)));
                    },
                    None => {
                        assert(code_src(dv) is None);
                        assert(lm =~= plain_code_spec(code_src(dv)));
                    },
                }
            }
            let r = LayoutBlock::CodeBlock(lines);
            proof {
                assert(r@ =~= code_spec(dv, markup.deep_view(), tree@));
            }
            r
        },
    }
}

/// Plain code lines from position `p` of the source on.
#[verifier::loop_isolation(false)]
fn plain_lines_from(st: &str, p: usize) -> (r: Vec<Vec<StyledRun>>)
    requires
        p <= st@.len(),
    ensures
        r.deep_view() == lines_runs(split_lines(st@.skip(p as int))),
    decreases st@.len() - p,
{
    let ghost suf = st@.skip(p as int);
    let n = st.unicode_len();
    let mut out: Vec<Vec<StyledRun>> = Vec::new();
    if p == n {
        proof {
            assert(suf.len() == 0);
            assert(out.deep_view() =~= lines_runs(split_lines(suf)));
        }
        return out;
    }
    let mut k = p;
    while k < n
        invariant
            p <= k <= n,
            forall|j: int| p <= j < k ==> st@[j] != '\n',
        decreases n - k,
    {
        if st.get_char(k) == '\n' {
            break;
        }
        k = k + 1;
    }
    proof {
        lemma_line_scan(st@, p as int, k as int);
        assert(clamp(0, find_char(suf, 0, '\n'), suf.len() as int) == k - p);
    }
    if k == n {
        let line = crate::strutil::copy_range(st, p, n);
        let ghost lv = line@;
        let mut runs: Vec<StyledRun> = Vec::new();
        runs.push(StyledRun { text: line, style: crate::style::Style::new() });
        proof {
            assert(runs.deep_view() =~= seq![RunModel { text: lv, style: empty_style() }]);
        }
        out.push(runs);
        proof {
            assert(lv =~= suf);
            assert(split_lines(suf) =~= seq![suf]);
            assert(out.deep_view() =~= lines_runs(split_lines(suf)));
        }
        return out;
    }
    let line = if k > p && st.get_char(k - 1) == '\r' {
        crate::strutil::copy_range(st, p, k - 1)
    } else {
        crate::strutil::copy_range(st, p, k)
    };
    let ghost lv = line@;
    proof {
        assert(suf.subrange(0, k - p) =~= st@.subrange(p as int, k as int));
        if k > p && st@[k as int - 1] == '\r' {
            assert(suf.subrange(0, k - p).drop_last() =~= st@.subrange(p as int, k as int - 1));
            assert(lv =~= drop_cr(suf.subrange(0, k - p)));
        } else {
            assert(lv =~= drop_cr(suf.subrange(0, k - p)));
        }
    }
    let mut runs: Vec<StyledRun> = Vec::new();
    runs.push(StyledRun { text: line, style: crate::style::Style::new() });
    proof {
        assert(runs.deep_view() =~= seq![RunModel { text: lv, style: empty_style() }]);
    }
    out.push(runs);
    let mut rest = plain_lines_from(st, k + 1);
    let ghost restm = rest.deep_view();
    out.append(&mut rest);
    proof {
        assert(suf.skip(k - p + 1) =~= st@.skip(k as int + 1));
        assert(out.deep_view() =~= seq![seq![RunModel { text: lv, style: empty_style() }]] + restm);
        assert(lines_runs(split_lines(suf)) =~= seq![
            seq![RunModel { text: drop_cr(suf.subrange(0, k - p)), style: empty_style() }],
        ] + lines_runs(split_lines(suf.skip(k - p + 1))));
        assert(out.deep_view() =~= lines_runs(split_lines(suf)));
    }
    out
}

/// A scan that stopped at the first newline (or the end) pins down
/// `find_char` for the suffix.
proof fn lemma_line_scan(s: Seq<char>, p: int, k: int)
    requires
        0 <= p <= k <= s.len(),
        forall|j: int| p <= j < k ==> s[j] != '\n',
        k < s.len() ==> s[k] == '\n',
    ensures
        find_char(s.skip(p), 0, '\n') == k - p,
{
    lemma_line_scan_rec(s.skip(p), 0, k - p);
}

proof fn lemma_line_scan_rec(t: Seq<char>, from: int, e: int)
    requires
        0 <= from <= e <= t.len(),
        forall|j: int| from <= j < e ==> t[j] != '\n',
        e < t.len() ==> t[e] == '\n',
    ensures
        find_char(t, from, '\n') == e,
    decreases e - from,
{
    if from < e {
        lemma_line_scan_rec(t, from + 1, e);
    }
}


/// One table cell and its content-length heuristic: literal text becomes
/// a styled paragraph measured by its character count; an element cell
/// becomes a stacked block when its content is multi-line and a single
/// paragraph otherwise, measured by the characters it contains.
pub open spec fn cell_of(n: NodeModel, rs: Style, mono: u32) -> (BlockModel, u64) {
    match n {
        NodeModel::Text(t) => (
            BlockModel::Paragraph(seq![RunModel { text: decode_entities(t), style: rs }]),
            node_text_len(n) as u64,
        ),
        NodeModel::Element { children, .. } => (
            if nodes_multiline_from(children, 0) {
                BlockModel::Stack(block_from(children, 0, rs, mono))
            } else {
                BlockModel::Paragraph(inline_from(children, 0, rs, mono))
            },
            node_text_len(n) as u64,
        ),
    }
}

/// The cells of one table row, from position `i` of its nodes on.
pub open spec fn cells_from(s: Seq<NodeModel>, i: int, rs: Style, mono: u32) -> Seq<
    (BlockModel, u64),
>
    decreases s, s.len() - i,
{
    if i < 0 || i >= s.len() {
        Seq::empty()
    } else {
        seq![cell_of(s[i], rs, mono)] + cells_from(s, i + 1, rs, mono)
    }
}

/// The rows contributed by the row elements of `s` from position `i` on.
pub open spec fn trs_from(s: Seq<NodeModel>, i: int, rs: Style, mono: u32) -> Seq<
    Seq<(BlockModel, u64)>,
>
    decreases s, s.len() - i,
{
    if i < 0 || i >= s.len() {
        Seq::empty()
    } else {
        (match s[i] {
            NodeModel::Element { children, .. } => seq![cells_from(children, 0, rs, mono)],
            NodeModel::Text(_) => Seq::empty(),
        }) + trs_from(s, i + 1, rs, mono)
    }
}

/// The rows of all table sections from position `i` on; the rows of a
/// `thead` section are set in bold.
pub open spec fn sections_from(s: Seq<NodeModel>, i: int, style: Style, mono: u32) -> Seq<
    Seq<(BlockModel, u64)>,
>
    decreases s, s.len() - i,
{
    if i < 0 || i >= s.len() {
        Seq::empty()
    } else {
        (match s[i] {
            NodeModel::Element { tag, children, .. } => trs_from(
                children,
                0,
                if tag == "thead"@ {
                    Style { bold: true, ..style }
                } else {
                    style
                },
                mono,
            ),
            NodeModel::Text(_) => Seq::empty(),
        }) + sections_from(s, i + 1, style, mono)
    }
}

/// The block of each cell of each row.
pub open spec fn rows_blocks(cells: Seq<Seq<(BlockModel, u64)>>) -> Seq<Seq<BlockModel>> {
    cells.map_values(|row: Seq<(BlockModel, u64)>| row.map_values(|c: (BlockModel, u64)| c.0))
}

/// The width heuristic of each cell of each row.
pub open spec fn rows_widths(cells: Seq<Seq<(BlockModel, u64)>>) -> Seq<Seq<u64>> {
    cells.map_values(|row: Seq<(BlockModel, u64)>| row.map_values(|c: (BlockModel, u64)| c.1))
}

/// `row` brought to `nc` cells by appending empty paragraphs.
pub open spec fn pad_row(row: Seq<BlockModel>, nc: int) -> Seq<BlockModel> {
    row + Seq::new(
        if nc >= row.len() {
            (nc - row.len()) as nat
        } else {
            0
        },
        |x: int| BlockModel::Paragraph(Seq::empty()),
    )
}

/// What a table element converts to: its sections' rows, padded to a
/// common column count, with the balanced column weights of
/// [`crate::table::weight_spec`].
pub open spec fn table_spec(s: Seq<NodeModel>, style: Style, mono: u32) -> BlockModel {
    let cells = sections_from(s, 0, style, mono);
    let widths = rows_widths(cells);
    let nc = crate::table::max_cols(widths);
    BlockModel::Table {
        rows: rows_blocks(cells).map_values(|row: Seq<BlockModel>| pad_row(row, nc)),
        weights: Seq::new(nc as nat, |c: int| crate::table::weight_spec(widths, c) as u64),
    }
}

/// The cells of one row element, as blocks and width heuristics.
#[verifier::loop_isolation(false)]
#[verifier::rlimit(60)]
fn row_cells(tr: &Vec<ElementNode>, rs: Style, monospace: u32) -> (r: (Vec<LayoutBlock>, Vec<u64>))
    ensures
        blocks_model_from(r.0@, 0) == cells_from(tr.deep_view(), 0, rs, monospace).map_values(
            |c: (BlockModel, u64)| c.0,
        ),
        r.1@ == cells_from(tr.deep_view(), 0, rs, monospace).map_values(
            |c: (BlockModel, u64)| c.1,
        ),
{
    let ghost dv = tr.deep_view();
    let mut blocks: Vec<LayoutBlock> = Vec::new();
    let mut widths: Vec<u64> = Vec::new();
    let n = tr.len();
    let mut j: usize = 0;
    while j < n
        invariant
            j <= n,
            blocks@.len() == j,
            widths@.len() == j,
            forall|k: int|
                0 <= k < j ==> (#[trigger] blocks@[k])@ == cell_of(dv[k], rs, monospace).0,
            forall|k: int| 0 <= k < j ==> #[trigger] widths@[k] == cell_of(dv[k], rs, monospace).1,
        decreases n - j,
    {
        proof {
            assert(dv[j as int] == tr@[j as int]@);
        }
        match &tr[j] {
            ElementNode::Text(t) => {
                let ghost tv = t@;
                let cleaned = replace_reserved(t.clone());
                let ghost cm = cleaned@;
                let w = t.as_str().unicode_len();
                let mut runs: Vec<StyledRun> = Vec::new();
                runs.push(StyledRun { text: cleaned, style: rs });
                proof {
                    assert(cm == decode_entities(tv));
                    assert(runs.deep_view() =~= seq![RunModel { text: cm, style: rs }]);
                }
                blocks.push(LayoutBlock::Paragraph(runs));
                widths.push(w as u64);
                proof {
                    assert(dv[j as int] == NodeModel::Text(tv));
                    assert(cell_of(dv[j as int], rs, monospace).0 == BlockModel::Paragraph(
                        seq![RunModel { text: decode_entities(tv), style: rs }],
                    ));
                    assert(blocks@[j as int]@ == cell_of(dv[j as int], rs, monospace).0);
                    assert(tv.len() == w);
                    assert(node_text_len(dv[j as int]) == w as int);
                    assert(widths@[j as int] == cell_of(dv[j as int], rs, monospace).1);
                }
            },
            ElementNode::Element { children: sub, .. } => {
                let w = count_string_length(sub);
                let cell = if is_multiline(sub) {
                    let inner = block(sub, rs, monospace);
                    proof {
                        lemma_blocks_model(inner@);
                        assert(blocks_model_from(inner@, 0) =~= inner.deep_view());
                    }
                    LayoutBlock::Stack(inner)
                } else {
                    LayoutBlock::Paragraph(paragraph(sub, rs, monospace))
                };
                proof {
                    lemma_nodes_model(sub@);
                    assert(nodes_model_from(sub@, 0) =~= sub.deep_view());
                }
                blocks.push(cell);
                widths.push(w);
                proof {
                    assert(blocks@[j as int]@ == cell_of(dv[j as int], rs, monospace).0);
                    assert(widths@[j as int] == cell_of(dv[j as int], rs, monospace).1);
                }
            },
        }
        j = j + 1;
    }
    proof {
        lemma_blocks_model(blocks@);
        lemma_cells_pointwise(dv, rs, monospace);
        assert(blocks_model_from(blocks@, 0) =~= cells_from(dv, 0, rs, monospace).map_values(
            |c: (BlockModel, u64)| c.0,
        ));
        assert(widths@ =~= cells_from(dv, 0, rs, monospace).map_values(
            |c: (BlockModel, u64)| c.1,
        ));
    }
    (blocks, widths)
}

/// `cells_from(s, 0, ..)` is the pointwise image of `cell_of`.
proof fn lemma_cells_pointwise(s: Seq<NodeModel>, rs: Style, mono: u32)
    ensures
        cells_from(s, 0, rs, mono).len() == s.len(),
        forall|k: int| 0 <= k < s.len() ==> cells_from(s, 0, rs, mono)[k] == cell_of(s[k], rs, mono),
{
    lemma_cells_pointwise_from(s, 0, rs, mono);
}

proof fn lemma_cells_pointwise_from(s: Seq<NodeModel>, i: int, rs: Style, mono: u32)
    requires
        0 <= i <= s.len(),
    ensures
        cells_from(s, i, rs, mono).len() == s.len() - i,
        forall|k: int|
            0 <= k < s.len() - i ==> cells_from(s, i, rs, mono)[k] == cell_of(s[i + k], rs, mono),
    decreases s.len() - i,
{
    if i < s.len() {
        lemma_cells_pointwise_from(s, i + 1, rs, mono);
        assert forall|k: int| 0 <= k < s.len() - i implies cells_from(s, i, rs, mono)[k] == cell_of(
            s[i + k],
            rs,
            mono,
        ) by {
            if k > 0 {
                assert(cells_from(s, i, rs, mono)[k] == cells_from(s, i + 1, rs, mono)[k - 1]);
            }
        }
    } else {
        assert(cells_from(s, i, rs, mono) =~= Seq::empty());
    }
}

/// Convert a table element: collect its rows, balance the columns, and
/// pad every row to the common column count with empty cells.
#[verifier::loop_isolation(false)]
#[verifier::rlimit(100)]
pub fn table(children: &Vec<ElementNode>, style: Style, monospace: u32) -> (r: LayoutBlock)
    ensures
        r@ == table_spec(children.deep_view(), style, monospace),
{
    let ghost dv = children.deep_view();
    let ghost cells_all = sections_from(dv, 0, style, monospace);
    let mut rows: Vec<Vec<LayoutBlock>> = Vec::new();
    let mut widths: Vec<Vec<u64>> = Vec::new();
    let ghost mut done = Seq::<Seq<(BlockModel, u64)>>::empty();
    let n = children.len();
    let mut i: usize = 0;
    proof {
        assert(rows_model_from(rows@, 0) =~~= rows_blocks(done));
        assert(widths.deep_view() =~~= rows_widths(done));
        assert(done + sections_from(dv, 0, style, monospace) =~= cells_all);
    }
    while i < n
        invariant
            i <= n,
            done + sections_from(dv, i as int, style, monospace) == cells_all,
            rows_model_from(rows@, 0) == rows_blocks(done),
            widths.deep_view() == rows_widths(done),
        decreases n - i,
    {
        proof {
            assert(dv[i as int] == children@[i as int]@);
        }
        match &children[i] {
            ElementNode::Element { tag, children: sec, .. } => {
                let rs = if str_eq(tag.as_str(), "thead") {
                    style.bold()
                } else {
                    style
                };
                let ghost secdv = sec.deep_view();
                proof {
                    lemma_nodes_model(sec@);
                    assert(nodes_model_from(sec@, 0) =~= secdv);
                }
                let m = sec.len();
                let mut t: usize = 0;
                while t < m
                    invariant
                        t <= m,
                        done + trs_from(secdv, t as int, rs, monospace) + sections_from(
                            dv,
                            i as int + 1,
                            style,
                            monospace,
                        ) == cells_all,
                        rows_model_from(rows@, 0) == rows_blocks(done),
                        widths.deep_view() == rows_widths(done),
                    decreases m - t,
                {
                    proof {
                        assert(secdv[t as int] == sec@[t as int]@);
                    }
                    match &sec[t] {
                        ElementNode::Element { children: tr, .. } => {
                            let (rb, rw) = row_cells(tr, rs, monospace);
                            let ghost rbm = blocks_model_from(rb@, 0);
                            let ghost rwm = rw@;
                            let ghost rowcells = cells_from(tr.deep_view(), 0, rs, monospace);
                            let ghost oldrows = rows@;
                            let ghost olddone = done;
                            rows.push(rb);
                            widths.push(rw);
                            proof {
                                lemma_nodes_model(tr@);
                                assert(nodes_model_from(tr@, 0) =~= tr.deep_view());
                                lemma_rows_model(oldrows);
                                lemma_rows_model(rows@);
                                assert(rows_model_from(rows@, 0) =~~= rows_blocks(olddone).push(rbm));
                                assert(widths.deep_view() =~~= rows_widths(olddone).push(rwm));
                                done = olddone.push(rowcells);
                                assert(rows_blocks(done) =~~= rows_blocks(olddone).push(
                                    rowcells.map_values(|c: (BlockModel, u64)| c.0),
                                ));
                                assert(rows_widths(done) =~~= rows_widths(olddone).push(
                                    rowcells.map_values(|c: (BlockModel, u64)| c.1),
                                ));
                                assert(rows_model_from(rows@, 0) =~~= rows_blocks(done));
                                assert(widths.deep_view() =~~= rows_widths(done));
                                assert(done + trs_from(secdv, t as int + 1, rs, monospace)
                                    + sections_from(dv, i as int + 1, style, monospace)
                                    =~= cells_all);
                            }
                        },
                        ElementNode::Text(_) => {
                            proof {
                                assert(done + trs_from(secdv, t as int + 1, rs, monospace)
                                    + sections_from(dv, i as int + 1, style, monospace)
                                    =~= cells_all);
                            }
                        },
                    }
                    t = t + 1;
                }
                proof {
                    assert(trs_from(secdv, m as int, rs, monospace) =~= Seq::<
                        Seq<(BlockModel, u64)>,
                    >::empty());
                    assert(done + sections_from(dv, i as int + 1, style, monospace) =~= cells_all);
                }
            },
            ElementNode::Text(_) => {
                proof {
                    assert(done + sections_from(dv, i as int + 1, style, monospace) =~= cells_all);
                }
            },
        }
        i = i + 1;
    }
    proof {
        assert(sections_from(dv, n as int, style, monospace) =~= Seq::<
            Seq<(BlockModel, u64)>,
        >::empty());
        assert(done =~= cells_all);
    }
    let weights = crate::table::column_weights(&widths);
    let ghost wspec = rows_widths(cells_all);
    proof {
        assert(widths.deep_view() == wspec);
    }
    let ncols = {
        let mut nc: usize = 0;
        let mut q: usize = 0;
        while q < widths.len()
            invariant
                q <= widths@.len(),
                crate::table::imax(nc as int, crate::table::max_cols_from(
                    widths.deep_view(),
                    q as int,
                )) == crate::table::max_cols(widths.deep_view()),
                nc <= usize::MAX,
            decreases widths@.len() - q,
        {
            let m = widths[q].len();
            if m > nc {
                nc = m;
            }
            q = q + 1;
        }
        proof {
            assert(crate::table::max_cols_from(widths.deep_view(), widths@.len() as int) == 0);
        }
        nc
    };
    proof {
        assert(ncols as int == crate::table::max_cols(wspec));
    }
    let mut padded: Vec<Vec<LayoutBlock>> = Vec::new();
    let ghost rowsm = rows_model_from(rows@, 0);
    let ghost total = rowsm.len();
    proof {
        lemma_rows_model(rows@);
    }
    let nrows = rows.len();
    let mut x: usize = 0;
    let mut rest = rows;
    while x < nrows
        invariant
            x <= nrows,
            nrows == total,
            rest@.len() == nrows - x,
            forall|k: int|
                0 <= k < nrows - x ==> blocks_model_from(rest@[k]@, 0) == rowsm[x + k],
            padded@.len() == x,
            forall|k: int|
                0 <= k < x ==> blocks_model_from(padded@[k]@, 0) == pad_row(
                    rowsm[k],
                    ncols as int,
                ),
        decreases nrows - x,
    {
        let mut row = rest.remove(0);
        let ghost rm0 = blocks_model_from(row@, 0);
        proof {
            lemma_blocks_model(row@);
            assert(rm0 == rowsm[x as int]);
            assert(forall|k: int| 0 <= k < rm0.len() ==> (#[trigger] row@[k])@ == rm0[k]);
        }
        while row.len() < ncols
            invariant
                row@.len() >= rm0.len(),
                row@.len() == rm0.len() || row@.len() <= ncols as int,
                forall|k: int| 0 <= k < rm0.len() ==> (#[trigger] row@[k])@ == rm0[k],
                forall|k: int|
                    rm0.len() <= k < row@.len() ==> (#[trigger] row@[k])@ == BlockModel::Paragraph(
                        Seq::empty(),
                    ),
            decreases ncols - row@.len(),
        {
            let filler: Vec<StyledRun> = Vec::new();
            proof {
                assert(filler.deep_view() =~= Seq::<RunModel>::empty());
            }
            row.push(LayoutBlock::Paragraph(filler));
        }
        let ghost rmf = blocks_model_from(row@, 0);
        proof {
            lemma_blocks_model(row@);
        }
        padded.push(row);
        proof {
            assert(rmf =~~= pad_row(rowsm[x as int], ncols as int));
            assert forall|k: int| 0 <= k < nrows - x - 1 implies blocks_model_from(
                rest@[k]@,
                0,
            ) == rowsm[x + 1 + k] by {}
        }
        x = x + 1;
    }
    let ghost wv = weights@;
    let r = LayoutBlock::Table { rows: padded, weights };
    proof {
        lemma_rows_model(r->Table_rows@);
        assert(rows_model_from(r->Table_rows@, 0) =~~= rows_blocks(cells_all).map_values(
            |row: Seq<BlockModel>| pad_row(row, ncols as int),
        ));
        assert(wv =~= Seq::new(
            ncols as nat,
            |c: int| crate::table::weight_spec(wspec, c) as u64,
        ));
        assert(r@ =~~= table_spec(dv, style, monospace));
    }
    r
}


/// The heading level a tag names, or zero for any other tag.
pub open spec fn heading_level(tag: Seq<char>) -> int {
    if tag == "h1"@ {
        1
    } else if tag == "h2"@ {
        2
    } else if tag == "h3"@ {
        3
    } else if tag == "h4"@ {
        4
    } else if tag == "h5"@ {
        5
    } else if tag == "h6"@ {
        6
    } else {
        0
    }
}

/// The blocks one node contributes at the top level of a chapter.
/// `markup` is what the highlighter produced if the node is a fenced
/// code element.
pub open spec fn convert_node(
    n: NodeModel,
    style: Style,
    fs: FontSize,
    mono: u32,
    tree: StyleModel,
    markup: Option<Seq<char>>,
) -> Seq<BlockModel> {
    match n {
        NodeModel::Text(_) => Seq::empty(),
        NodeModel::Element { tag, children, .. } => {
            if heading_level(tag) > 0 {
                seq![
                    BlockModel::Heading {
                        level: heading_level(tag) as u8,
                        runs: inline_from(
                            children,
                            0,
                            Style { font_size: Some(font_size_get(fs, tag)), ..style },
                            mono,
                        ),
                    },
                ]
            } else if tag == "p"@ {
                seq![BlockModel::Paragraph(inline_from(children, 0, style, mono))]
            } else if tag == "ol"@ {
                seq![list_spec(children, style, mono, true)]
            } else if tag == "ul"@ {
                seq![list_spec(children, style, mono, false)]
            } else if tag == "pre"@ {
                seq![code_spec(children, markup, tree)]
            } else if tag == "table"@ {
                seq![table_spec(children, style, mono)]
            } else {
                Seq::empty()
            }
        },
    }
}

/// The blocks of the nodes of `s` from position `i` on; `ms[i]` carries
/// the highlighter markup for the node at `i`, if any.
pub open spec fn convert_from(
    s: Seq<NodeModel>,
    i: int,
    style: Style,
    fs: FontSize,
    mono: u32,
    tree: StyleModel,
    ms: Seq<Option<Seq<char>>>,
) -> Seq<BlockModel>
    decreases s.len() - i,
{
    if i < 0 || i >= s.len() {
        Seq::empty()
    } else {
        let m = if 0 <= i < ms.len() {
            ms[i]
        } else {
            None
        };
        convert_node(s[i], style, fs, mono, tree, m) + convert_from(
            s,
            i + 1,
            style,
            fs,
            mono,
            tree,
            ms,
        )
    }
}

/// Convert the block-level children of a chapter.  `markups` holds, for
/// each child in order, the markup the highlighter produced for it if it
/// is a fenced code element that was highlighted.
#[verifier::loop_isolation(false)]
pub fn parse_children(
    children: &Vec<ElementNode>,
    style: Style,
    fs: &FontSize,
    monospace: u32,
    tree: &StyleElement,
    markups: &Vec<Option<String>>,
) -> (r: Vec<LayoutBlock>)
    requires
        markups@.len() == children@.len(),
    ensures
        r.deep_view() == convert_from(
            children.deep_view(),
            0,
            style,
            *fs,
            monospace,
            tree@,
            markups.deep_view(),
        ),
{
    let ghost dv = children.deep_view();
    let ghost msv = markups.deep_view();
    let mut out: Vec<LayoutBlock> = Vec::new();
    let n = children.len();
    let mut i: usize = 0;
    proof {
        assert(out.deep_view() =~= Seq::<BlockModel>::empty());
        assert(out.deep_view() + convert_from(dv, 0, style, *fs, monospace, tree@, msv)
            =~= convert_from(dv, 0, style, *fs, monospace, tree@, msv));
    }
    while i < n
        invariant
            i <= n,
            out.deep_view() + convert_from(dv, i as int, style, *fs, monospace, tree@, msv)
                == convert_from(dv, 0, style, *fs, monospace, tree@, msv),
        decreases n - i,
    {
        let ghost before = out.deep_view();
        proof {
            assert(dv[i as int] == children@[i as int]@);
            assert(msv[i as int] == markups@[i as int].deep_view());
        }
        match &children[i] {
            ElementNode::Text(_) => {},
            ElementNode::Element { tag, children: sub, .. } => {
                let ts = tag.as_str();
                let level: u8 = if str_eq(ts, "h1") {
                    1
                } else if str_eq(ts, "h2") {
                    2
                } else if str_eq(ts, "h3") {
                    3
                } else if str_eq(ts, "h4") {
                    4
                } else if str_eq(ts, "h5") {
                    5
                } else if str_eq(ts, "h6") {
                    6
                } else {
                    0
                };
                proof {
                    assert(level as int == heading_level(tag@));
                    lemma_nodes_model(sub@);
                    assert(nodes_model_from(sub@, 0) =~= sub.deep_view());
                }
                if level > 0 {
                    let runs = paragraph(sub, style.with_font_size(fs.get(ts)), monospace);
                    let ghost rm = runs.deep_view();
                    out.push(LayoutBlock::Heading { level, runs });
                    proof {
                        assert(out.deep_view() =~= before + convert_node(
                            dv[i as int],
                            style,
                            *fs,
                            monospace,
                            tree@,
                            msv[i as int],
                        ));
                    }
                } else if str_eq(ts, "p") {
                    let runs = paragraph(sub, style, monospace);
                    out.push(LayoutBlock::Paragraph(runs));
                    proof {
                        assert(out.deep_view() =~= before + convert_node(
                            dv[i as int],
                            style,
                            *fs,
                            monospace,
                            tree@,
                            msv[i as int],
                        ));
                    }
                } else if str_eq(ts, "ol") {
                    let item = convert_list(sub, style, monospace, true);
                    out.push(item);
                    proof {
                        assert(out.deep_view() =~= before + convert_node(
                            dv[i as int],
                            style,
                            *fs,
                            monospace,
                            tree@,
                            msv[i as int],
                        ));
                    }
                } else if str_eq(ts, "ul") {
                    let item = convert_list(sub, style, monospace, false);
                    out.push(item);
                    proof {
                        assert(out.deep_view() =~= before + convert_node(
                            dv[i as int],
                            style,
                            *fs,
                            monospace,
                            tree@,
                            msv[i as int],
                        ));
                    }
                } else if str_eq(ts, "pre") {
                    let item = code(sub, &markups[i], tree);
                    out.push(item);
                    proof {
                        assert(out.deep_view() =~= before + convert_node(
                            dv[i as int],
                            style,
                            *fs,
                            monospace,
                            tree@,
                            msv[i as int],
                        ));
                    }
                } else if str_eq(ts, "table") {
                    let item = table(sub, style, monospace);
                    out.push(item);
                    proof {
                        assert(out.deep_view() =~= before + convert_node(
                            dv[i as int],
                            style,
                            *fs,
                            monospace,
                            tree@,
                            msv[i as int],
                        ));
                    }
                }
            },
        }
        proof {
            assert(out.deep_view() + convert_from(dv, i as int + 1, style, *fs, monospace, tree@, msv)
                =~= before + convert_from(dv, i as int, style, *fs, monospace, tree@, msv));
        }
        i = i + 1;
    }
    proof {
        assert(convert_from(dv, n as int, style, *fs, monospace, tree@, msv) =~= Seq::<
            BlockModel,
        >::empty());
        assert(out.deep_view() =~= convert_from(dv, 0, style, *fs, monospace, tree@, msv));
    }
    out
}

/// A highlighting backend: tells which languages it can highlight, and
/// produces span markup for a piece of source.  The crate states nothing
/// about what a backend returns; whatever markup comes back is fed to
/// the verified tokenizer pipeline.
pub trait Highlighter {
    /// Whether this backend can highlight the language.
    fn supports_language(&self, lang: &String) -> bool;

    /// Markup for `src`, highlighted as `lang`.
    fn highlight(&self, lang: &String, src: &String) -> String;
}

/// The backend that never highlights: every fenced code block takes the
/// plain-lines fallback.
pub struct NoHighlight {
}

impl Highlighter for NoHighlight {
    fn supports_language(&self, lang: &String) -> bool {
        false
    }

    fn highlight(&self, lang: &String, src: &String) -> String {
        String::new()
    }
}

/// Whether a node is a fenced code element.
pub open spec fn is_pre(n: NodeModel) -> bool {
    n is Element && n->Element_tag == "pre"@
}

/// What a filled markup slot certifies: only a fenced code element that
/// names a language and carries source text can have one.  Read the
/// other way round, a fenced child naming no `language-` class, or
/// holding no source text, keeps an empty slot, so its conversion is
/// forced onto the plain-lines fallback without the backend being
/// consulted.
pub open spec fn markup_slot_ok(n: NodeModel, slot: Option<Seq<char>>) -> bool {
    slot is Some ==> {
        &&& is_pre(n)
        &&& code_langs(n->Element_children).len() > 0
        &&& code_src(n->Element_children) is Some
    }
}

/// Ask the highlighter for markup for each fenced code child: one slot
/// per child, in order.  A slot can be filled only for a fenced code
/// element that names a language (a class of its first child starting
/// `language-`) and carries source text; what is handed to the backend
/// is pinned by [`code_languages`] and [`code_source`], and the named
/// languages are tried in order until the backend accepts one.  Which
/// languages it accepts is the backend's answer, about which the
/// library states nothing.
#[verifier::loop_isolation(false)]
pub fn collect_markups<H: Highlighter>(children: &Vec<ElementNode>, hl: &H) -> (r: Vec<
    Option<String>,
>)
    ensures
        r@.len() == children@.len(),
        forall|k: int|
            0 <= k < r@.len() ==> markup_slot_ok(
                children.deep_view()[k],
                (#[trigger] r@[k]).deep_view(),
            ),
{
    let mut out: Vec<Option<String>> = Vec::new();
    let n = children.len();
    let mut i: usize = 0;
    while i < n
        invariant
            i <= n,
            out@.len() == i,
            forall|k: int|
                0 <= k < i ==> markup_slot_ok(
                    children.deep_view()[k],
                    (#[trigger] out@[k]).deep_view(),
                ),
        decreases n - i,
    {
        let mut markup: Option<String> = None;
        proof {
            assert(children.deep_view()[i as int] == children@[i as int]@);
        }
        match &children[i] {
            ElementNode::Element { tag, children: sub, .. } => {
                if str_eq(tag.as_str(), "pre") {
                    let langs = code_languages(sub);
                    let src = code_source(sub);
                    proof {
                        lemma_nodes_model(sub@);
                        assert(nodes_model_from(sub@, 0) =~= sub.deep_view());
                    }
                    if let Some(sv) = src {
                        let nl = langs.len();
                        let mut li: usize = 0;
                        while li < nl
                            invariant
                                li <= nl,
                                markup is None,
                            decreases nl - li,
                        {
                            if hl.supports_language(&langs[li]) {
                                markup = Some(hl.highlight(&langs[li], sv));
                                break;
                            }
                            li = li + 1;
                        }
                        proof {
                            if markup is Some {
                                assert(langs@.len() > 0);
                                assert(code_langs(sub.deep_view()).len() > 0);
                            }
                        }
                    }
                }
            },
            ElementNode::Text(_) => {},
        }
        out.push(markup);
        i = i + 1;
    }
    out
}

/// Convert a whole chapter: ask the highlighter about each fenced code
/// block, then convert every block-level child.  Whatever markup the
/// highlighter returned, the result is the verified conversion of the
/// children for some sequence of per-child markups, and only fenced
/// code elements ever received one.
pub fn chapter<H: Highlighter>(
    children: &Vec<ElementNode>,
    style: Style,
    fs: &FontSize,
    monospace: u32,
    tree: &StyleElement,
    hl: &H,
) -> (r: Vec<LayoutBlock>)
    ensures
        exists|ms: Seq<Option<Seq<char>>>|
            ms.len() == children.deep_view().len() && (forall|k: int|
                0 <= k < ms.len() ==> markup_slot_ok(
                    children.deep_view()[k],
                    #[trigger] ms[k],
                )) && r.deep_view() == convert_from(
                children.deep_view(),
                0,
                style,
                *fs,
                monospace,
                tree@,
                ms,
            ),
{
    let markups = collect_markups(children, hl);
    let r = parse_children(children, style, fs, monospace, tree, &markups);
    proof {
        let w = markups.deep_view();
        assert(w.len() == children.deep_view().len());
        assert(forall|k: int|
            0 <= k < w.len() ==> markup_slot_ok(children.deep_view()[k], #[trigger] w[k]));
        assert(r.deep_view() == convert_from(
            children.deep_view(),
            0,
            style,
            *fs,
            monospace,
            tree@,
            w,
        ));
    }
    r
}

} // verus!
