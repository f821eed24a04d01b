use mdlayout::reflow::reflow;
use mdlayout::reflow::to_block;
use mdlayout::strutil::replace_reserved;
use mdlayout::style::Rgb;
use mdlayout::style::Style;
use mdlayout::style::StyledRun;
use mdlayout::styletree::StyleElement;
use mdlayout::token::parse_html;
use mdlayout::token::Token;
use mdlayout::wrap::split_width;
use mdlayout::wrap::WordRecord;

fn run(text: &str, style: Style) -> StyledRun {
    StyledRun::new(text.to_string(), style)
}

fn word(text: &str, width: u64, space: u64) -> WordRecord {
    WordRecord::new(text.to_string(), width, Style::new(), space)
}

#[test]
fn entities_are_decoded() {
    assert_eq!(replace_reserved("a&lt;b&gt;c".to_string()), "a<b>c");
    assert_eq!(replace_reserved("&quot;&#x27;&amp;".to_string()), "\"'&");
    assert_eq!(replace_reserved("plain".to_string()), "plain");
    // a double-encoded entity decodes one level
    assert_eq!(replace_reserved("&amp;lt;".to_string()), "&lt;");
}

#[test]
fn tokenizer_reads_text_and_spans() {
    let toks = parse_html("hello".to_string());
    assert_eq!(toks, vec![Token::Text("hello".to_string())]);

    let toks = parse_html("<span>x</span>y".to_string());
    assert_eq!(
        toks,
        vec![
            Token::Element {
                classes: vec![],
                children: vec![Token::Text("x".to_string())],
            },
            Token::Text("y".to_string()),
        ]
    );
}

#[test]
fn tokenizer_reads_classes_and_decodes_entities() {
    let toks = parse_html("<span class=\"kw fn\">a&amp;b</span>".to_string());
    assert_eq!(
        toks,
        vec![Token::Element {
            classes: vec!["kw".to_string(), "fn".to_string()],
            children: vec![Token::Text("a&b".to_string())],
        }]
    );
}

#[test]
fn tokenizer_truncates_on_close_without_open() {
    // a stray closing tag ends the scope: everything before it is kept
    let toks = parse_html("ab</span>cd".to_string());
    assert_eq!(toks, vec![Token::Text("ab".to_string())]);
}

#[test]
fn tokenizer_truncates_input_that_ends_inside_a_tag() {
    // the input ends inside the opening tag: the text collected so far
    // is kept and the rest becomes an empty trailing element
    let toks = parse_html("ab<spa".to_string());
    assert_eq!(
        toks,
        vec![
            Token::Text("ab".to_string()),
            Token::Element { classes: vec![], children: vec![] },
        ]
    );
}

#[test]
fn reflow_splits_one_run_on_newline() {
    let s1 = Style::new().bold();
    let lines = reflow(vec![run("a\nb", s1)]);
    assert_eq!(lines, vec![vec![run("a", s1)], vec![run("b", s1)]]);
}

#[test]
fn reflow_newline_run_closes_without_content() {
    let s1 = Style::new().bold();
    let s2 = Style::new().italic();
    let lines = reflow(vec![run("a", s1), run("\n", s2), run("b", s1)]);
    assert_eq!(lines, vec![vec![run("a", s1)], vec![run("b", s1)]]);
}

#[test]
fn reflow_trims_trailing_whitespace_of_final_run() {
    let s1 = Style::new();
    let lines = reflow(vec![run("foo   ", s1)]);
    assert_eq!(lines, vec![vec![run("foo", s1)]]);

    let lines = reflow(vec![run("x", s1), run("foo \n", s1)]);
    assert_eq!(lines, vec![vec![run("x", s1), run("foo", s1)]]);
}

#[test]
fn reflow_keeps_interior_blank_lines() {
    let s = Style::new();
    let lines = reflow(vec![run("x\n\ny", s)]);
    assert_eq!(lines, vec![vec![run("x", s)], vec![], vec![run("y", s)]]);
}

#[test]
fn wrap_packs_greedily_and_keeps_all_words() {
    let a = word("a", 4, 1);
    let b = word("b", 5, 1);
    let c = word("c", 6, 1);
    let lines = split_width(10, vec![a.clone(), b.clone(), c.clone()]);
    assert_eq!(lines, vec![vec![a, b], vec![c]]);
}

#[test]
fn wrap_gives_oversized_word_its_own_line() {
    let big = word("big", 10, 1);
    let x = word("x", 1, 1);
    let lines = split_width(3, vec![big.clone(), x.clone()]);
    assert_eq!(lines, vec![vec![big], vec![x]]);
}

#[test]
fn wrap_counts_trailing_space_in_accumulator() {
    // after "a" the accumulator is 4 + 2; adding "b" of width 5 would
    // reach 11 > 10, so "b" opens the next line
    let a = word("a", 4, 2);
    let b = word("b", 5, 0);
    let lines = split_width(10, vec![a.clone(), b.clone()]);
    assert_eq!(lines, vec![vec![a], vec![b]]);
}

#[test]
fn wrap_of_nothing_is_no_lines() {
    let lines = split_width(10, Vec::new());
    assert!(lines.is_empty());
}

#[test]
fn to_block_styles_spans_and_splits_lines() {
    let red = Style::new().with_color(Rgb { r: 200, g: 0, b: 0 });
    let tree = StyleElement::Parent { default: Style::new(), children: Vec::new() };
    let tree = tree.insert(&vec!["kw".to_string()], red);
    let lines = to_block("<span class=\"kw\">fn</span> main\nend".to_string(), &tree);
    assert_eq!(
        lines,
        vec![
            vec![run("fn", red), run(" main", Style::new())],
            vec![run("end", Style::new())],
        ]
    );
}

#[test]
fn column_weights_scale_against_the_largest_mean() {
    let weights = mdlayout::table::column_weights(&vec![vec![4, 8, 2]]);
    assert_eq!(weights, vec![1, 3, 1]);
}

#[test]
fn column_weights_pad_short_rows_and_floor_at_one() {
    // second column averages (0 + 8) / 2 = 4, like the first
    let weights = mdlayout::table::column_weights(&vec![vec![4], vec![4, 8]]);
    assert_eq!(weights, vec![3, 3]);
    // all-empty content still yields a weight of one per column
    let weights = mdlayout::table::column_weights(&vec![vec![0, 0]]);
    assert_eq!(weights, vec![1, 1]);
}
