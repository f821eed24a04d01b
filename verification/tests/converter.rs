use mdlayout::config::FontSize;
use mdlayout::contents::ChapterMap;
use mdlayout::convert::chapter;
use mdlayout::convert::count_string_length;
use mdlayout::convert::is_multiline;
use mdlayout::convert::parse_children;
use mdlayout::convert::ElementNode;
use mdlayout::convert::Highlighter;
use mdlayout::convert::LayoutBlock;
use mdlayout::convert::NoHighlight;
use mdlayout::style::Rgb;
use mdlayout::style::Style;
use mdlayout::style::StyledRun;
use mdlayout::styletree::StyleElement;

fn txt(s: &str) -> ElementNode {
    ElementNode::Text(s.to_string())
}

fn el(tag: &str, children: Vec<ElementNode>) -> ElementNode {
    ElementNode::Element { tag: tag.to_string(), classes: Vec::new(), children }
}

fn el_classed(tag: &str, classes: &[&str], children: Vec<ElementNode>) -> ElementNode {
    ElementNode::Element {
        tag: tag.to_string(),
        classes: classes.iter().map(|c| c.to_string()).collect(),
        children,
    }
}

fn run(text: &str, style: Style) -> StyledRun {
    StyledRun::new(text.to_string(), style)
}

fn plain_tree() -> StyleElement {
    StyleElement::Parent { default: Style::new(), children: Vec::new() }
}

fn none_markups(n: usize) -> Vec<Option<String>> {
    (0..n).map(|_| None).collect()
}

#[test]
fn headings_take_their_level_size() {
    let doc = vec![el("h2", vec![txt("Title")])];
    let fs = FontSize::default();
    let out = parse_children(&doc, Style::new(), &fs, 7, &plain_tree(), &none_markups(1));
    assert_eq!(
        out,
        vec![LayoutBlock::Heading {
            level: 2,
            runs: vec![run("Title", Style::new().with_font_size(20))],
        }]
    );
}

#[test]
fn inline_emphasis_composes_positionally() {
    let doc = vec![el(
        "p",
        vec![txt("a"), el("strong", vec![el("em", vec![txt("b")])]), el("code", vec![txt("c")])],
    )];
    let fs = FontSize::default();
    let out = parse_children(&doc, Style::new(), &fs, 7, &plain_tree(), &none_markups(1));
    assert_eq!(
        out,
        vec![LayoutBlock::Paragraph(vec![
            run("a", Style::new()),
            run("b", Style::new().bold().italic()),
            run("c", Style::new().with_font_family(7)),
        ])]
    );
}

#[test]
fn paragraph_text_drops_newlines_and_decodes_entities() {
    let doc = vec![el("p", vec![txt("x\ny&amp;z")])];
    let fs = FontSize::default();
    let out = parse_children(&doc, Style::new(), &fs, 7, &plain_tree(), &none_markups(1));
    assert_eq!(out, vec![LayoutBlock::Paragraph(vec![run("xy&z", Style::new())])]);
}

#[test]
fn unknown_tags_and_loose_text_are_dropped() {
    let doc = vec![txt("loose"), el("aside", vec![txt("x")]), el("p", vec![txt("kept")])];
    let fs = FontSize::default();
    let out = parse_children(&doc, Style::new(), &fs, 7, &plain_tree(), &none_markups(3));
    assert_eq!(out, vec![LayoutBlock::Paragraph(vec![run("kept", Style::new())])]);
}

#[test]
fn single_line_list_items_stay_paragraphs() {
    let doc = vec![el("ul", vec![el("li", vec![txt("one")]), el("li", vec![txt("two")])])];
    let fs = FontSize::default();
    let out = parse_children(&doc, Style::new(), &fs, 7, &plain_tree(), &none_markups(1));
    assert_eq!(
        out,
        vec![LayoutBlock::List {
            ordered: false,
            items: vec![
                LayoutBlock::Paragraph(vec![run("one", Style::new())]),
                LayoutBlock::Paragraph(vec![run("two", Style::new())]),
            ],
        }]
    );
}

#[test]
fn one_multiline_item_forces_all_items_into_block_form() {
    let doc = vec![el(
        "ol",
        vec![el("li", vec![txt("a\nb")]), el("li", vec![txt("c")])],
    )];
    let fs = FontSize::default();
    let out = parse_children(&doc, Style::new(), &fs, 7, &plain_tree(), &none_markups(1));
    assert_eq!(
        out,
        vec![LayoutBlock::List {
            ordered: true,
            items: vec![
                LayoutBlock::Stack(vec![LayoutBlock::Paragraph(vec![run("ab", Style::new())])]),
                LayoutBlock::Stack(vec![LayoutBlock::Paragraph(vec![run("c", Style::new())])]),
            ],
        }]
    );
}

#[test]
fn multiline_detection_sees_nested_text() {
    assert!(is_multiline(&vec![el("li", vec![el("p", vec![txt("a\nb")])])]));
    assert!(!is_multiline(&vec![el("li", vec![el("p", vec![txt("ab")])])]));
}

#[test]
fn string_length_counts_all_nested_characters() {
    let nodes = vec![el("li", vec![txt("abc"), el("p", vec![txt("de")])]), txt("f")];
    assert_eq!(count_string_length(&nodes), 6);
}

#[test]
fn code_without_highlighting_splits_plain_lines() {
    let doc = vec![el(
        "pre",
        vec![el_classed("code", &["language-zz"], vec![txt("line1\nline2")])],
    )];
    let fs = FontSize::default();
    let out = parse_children(&doc, Style::new(), &fs, 7, &plain_tree(), &none_markups(1));
    assert_eq!(
        out,
        vec![LayoutBlock::CodeBlock(vec![
            vec![run("line1", Style::new())],
            vec![run("line2", Style::new())],
        ])]
    );
}

struct CannedHighlighter;

impl Highlighter for CannedHighlighter {
    fn supports_language(&self, lang: &String) -> bool {
        lang.as_str() == "rust"
    }

    fn highlight(&self, _lang: &String, _src: &String) -> String {
        "<span class=\"kw\">fn</span>".to_string()
    }
}

#[test]
fn chapter_feeds_highlighter_markup_through_the_pipeline() {
    let red = Style::new().with_color(Rgb { r: 200, g: 0, b: 0 });
    let tree = plain_tree().insert(&vec!["kw".to_string()], red);
    let doc = vec![el(
        "pre",
        vec![el_classed("code", &["language-rust"], vec![txt("fn")])],
    )];
    let fs = FontSize::default();
    let out = chapter(&doc, Style::new(), &fs, 7, &tree, &CannedHighlighter);
    assert_eq!(out, vec![LayoutBlock::CodeBlock(vec![vec![run("fn", red)]])]);
}

#[test]
fn every_named_language_is_tried_in_order() {
    // the first named language is unsupported; the second is accepted
    let red = Style::new().with_color(Rgb { r: 200, g: 0, b: 0 });
    let tree = plain_tree().insert(&vec!["kw".to_string()], red);
    let doc = vec![el(
        "pre",
        vec![el_classed("code", &["language-zz", "language-rust"], vec![txt("fn")])],
    )];
    let fs = FontSize::default();
    let out = chapter(&doc, Style::new(), &fs, 7, &tree, &CannedHighlighter);
    assert_eq!(out, vec![LayoutBlock::CodeBlock(vec![vec![run("fn", red)]])]);
}

#[test]
fn chapter_with_no_highlight_falls_back_to_plain_lines() {
    let doc = vec![el(
        "pre",
        vec![el_classed("code", &["language-rust"], vec![txt("a\nb")])],
    )];
    let fs = FontSize::default();
    let out = chapter(&doc, Style::new(), &fs, 7, &plain_tree(), &NoHighlight {});
    assert_eq!(
        out,
        vec![LayoutBlock::CodeBlock(vec![
            vec![run("a", Style::new())],
            vec![run("b", Style::new())],
        ])]
    );
}

struct EagerHighlighter;

impl Highlighter for EagerHighlighter {
    fn supports_language(&self, _lang: &String) -> bool {
        true
    }

    fn highlight(&self, _lang: &String, _src: &String) -> String {
        "<span class=\"kw\">invented</span>".to_string()
    }
}

#[test]
fn code_without_a_language_class_never_consults_the_backend() {
    // no class starts with "language-", so even a backend that claims
    // every language yields the plain fallback
    let doc = vec![el("pre", vec![el("code", vec![txt("x")])])];
    let fs = FontSize::default();
    let out = chapter(&doc, Style::new(), &fs, 7, &plain_tree(), &EagerHighlighter);
    assert_eq!(
        out,
        vec![LayoutBlock::CodeBlock(vec![vec![run("x", Style::new())]])]
    );
}

#[test]
fn code_without_source_text_gets_no_markup() {
    let doc = vec![el(
        "pre",
        vec![el_classed("code", &["language-rust"], vec![])],
    )];
    let fs = FontSize::default();
    let out = chapter(&doc, Style::new(), &fs, 7, &plain_tree(), &EagerHighlighter);
    assert_eq!(out, vec![LayoutBlock::CodeBlock(vec![])]);
}

#[test]
fn tables_pad_rows_and_balance_columns() {
    let doc = vec![el(
        "table",
        vec![
            el("thead", vec![el("tr", vec![txt("ab"), txt("x")])]),
            el("tbody", vec![el("tr", vec![txt("cdef")])]),
        ],
    )];
    let fs = FontSize::default();
    let base = Style::new();
    let out = parse_children(&doc, base, &fs, 7, &plain_tree(), &none_markups(1));
    // column means: (2 + 4) / 2 = 3 and (1 + 0) / 2 = 0, so the weights
    // are 3 * 3 / 3 = 3 and the floor of 1
    assert_eq!(
        out,
        vec![LayoutBlock::Table {
            rows: vec![
                vec![
                    LayoutBlock::Paragraph(vec![run("ab", base.bold())]),
                    LayoutBlock::Paragraph(vec![run("x", base.bold())]),
                ],
                vec![
                    LayoutBlock::Paragraph(vec![run("cdef", base)]),
                    LayoutBlock::Paragraph(vec![]),
                ],
            ],
            weights: vec![3, 1],
        }]
    );
}

#[test]
fn table_cells_with_multiline_elements_stack() {
    let doc = vec![el(
        "table",
        vec![el("tbody", vec![el("tr", vec![el("td", vec![txt("p\nq")])])])],
    )];
    let fs = FontSize::default();
    let out = parse_children(&doc, Style::new(), &fs, 7, &plain_tree(), &none_markups(1));
    assert_eq!(
        out,
        vec![LayoutBlock::Table {
            rows: vec![vec![LayoutBlock::Stack(vec![LayoutBlock::Paragraph(vec![run(
                "pq",
                Style::new(),
            )])])]],
            weights: vec![3],
        }]
    );
}

#[test]
fn chapter_map_renders_nested_ordered_lists() {
    let map = ChapterMap::Branch(
        "Part".to_string(),
        vec![ChapterMap::Leaf("One".to_string()), ChapterMap::Leaf("Two".to_string())],
    );
    let mut out: Vec<LayoutBlock> = Vec::new();
    map.to_list(10, &mut out);
    let sized = Style::new().with_font_size(10);
    assert_eq!(
        out,
        vec![LayoutBlock::Stack(vec![
            LayoutBlock::Paragraph(vec![run("Part", sized)]),
            LayoutBlock::List {
                ordered: true,
                items: vec![
                    LayoutBlock::Paragraph(vec![run("One", sized)]),
                    LayoutBlock::Paragraph(vec![run("Two", sized)]),
                ],
            },
        ])]
    );
}
