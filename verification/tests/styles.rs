use mdlayout::style::Rgb;
use mdlayout::style::Style;
use mdlayout::styletree::StyleElement;

fn path(parts: &[&str]) -> Vec<String> {
    parts.iter().map(|s| s.to_string()).collect()
}

fn coloured(r: u8, g: u8, b: u8) -> Style {
    Style::new().with_color(Rgb { r, g, b })
}

#[test]
fn lookup_on_empty_parent_gives_default() {
    let tree = StyleElement::Parent { default: coloured(9, 9, 9), children: Vec::new() };
    assert_eq!(tree.get_style(&path(&[])), coloured(9, 9, 9));
    assert_eq!(tree.get_style(&path(&["missing"])), coloured(9, 9, 9));
    assert_eq!(tree.get_style(&path(&["a", "b", "c"])), coloured(9, 9, 9));
}

#[test]
fn insert_then_lookup_returns_written_style() {
    let tree = StyleElement::Parent { default: Style::new(), children: Vec::new() };
    let tree = tree.insert(&path(&["kw"]), coloured(1, 0, 0));
    assert_eq!(tree.get_style(&path(&["kw"])), coloured(1, 0, 0));
    let tree = tree.insert(&path(&["kw", "inner"]), coloured(0, 1, 0));
    assert_eq!(tree.get_style(&path(&["kw", "inner"])), coloured(0, 1, 0));
}

#[test]
fn lookup_never_fails_and_falls_back_on_unmatched_tail() {
    // the final segment is unmatched, so the answer equals the answer for
    // the path without it
    let tree = StyleElement::Parent { default: coloured(5, 5, 5), children: Vec::new() };
    let tree = tree.insert(&path(&["a", "b"]), coloured(1, 1, 1));
    assert_eq!(tree.get_style(&path(&["a", "zz"])), tree.get_style(&path(&["a"])));
    assert_eq!(tree.get_style(&path(&["zz", "b"])), coloured(5, 5, 5));
}

#[test]
fn sibling_insert_does_not_disturb_first_path() {
    let tree = StyleElement::Parent { default: Style::new(), children: Vec::new() };
    let tree = tree.insert(&path(&["x", "left"]), coloured(1, 2, 3));
    let before = tree.get_style(&path(&["x", "left"]));
    let tree = tree.insert(&path(&["x", "right"]), coloured(4, 5, 6));
    assert_eq!(tree.get_style(&path(&["x", "left"])), before);
    assert_eq!(tree.get_style(&path(&["x", "left"])), coloured(1, 2, 3));
    assert_eq!(tree.get_style(&path(&["x", "right"])), coloured(4, 5, 6));
}

#[test]
fn leaf_downgrade_keeps_prior_style_reachable() {
    // inserting below a leaf turns it into a parent whose default is the
    // prior leaf style, so paths that resolved before still resolve
    let tree = StyleElement::Child(coloured(7, 7, 7));
    let tree = tree.insert(&path(&["deep"]), coloured(1, 1, 1));
    assert_eq!(tree.get_style(&path(&[])), coloured(7, 7, 7));
    assert_eq!(tree.get_style(&path(&["other"])), coloured(7, 7, 7));
    assert_eq!(tree.get_style(&path(&["deep"])), coloured(1, 1, 1));
}

#[test]
fn rightmost_listed_class_wins_within_one_level() {
    // both classes are child keys at the same level: the last one of
    // the list decides the subtree
    let tree = StyleElement::Parent { default: Style::new(), children: Vec::new() };
    let tree = tree.insert(&path(&["a"]), coloured(1, 0, 0));
    let tree = tree.insert(&path(&["b"]), coloured(0, 1, 0));
    assert_eq!(tree.get_style(&path(&["a", "b"])), coloured(0, 1, 0));
    assert_eq!(tree.get_style(&path(&["b", "a"])), coloured(1, 0, 0));
}

#[test]
fn unmatched_leading_classes_are_skipped() {
    // only the later class is a child key, so it decides the subtree
    let tree = StyleElement::Parent { default: Style::new(), children: Vec::new() };
    let tree = tree.insert(&path(&["b"]), coloured(0, 1, 0));
    assert_eq!(tree.get_style(&path(&["a", "b"])), coloured(0, 1, 0));
}

#[test]
fn repeated_insert_at_the_same_path_takes_the_last_write() {
    let tree = StyleElement::Parent { default: Style::new(), children: Vec::new() };
    let tree = tree.insert(&path(&["kw"]), coloured(1, 1, 1));
    let tree = tree.insert(&path(&["kw"]), coloured(2, 2, 2));
    assert_eq!(tree.get_style(&path(&["kw"])), coloured(2, 2, 2));
}

#[test]
fn style_builders_set_single_fields() {
    let s = Style::new().bold().italic().with_font_size(12).with_font_family(3);
    assert!(s.bold);
    assert!(s.italic);
    assert_eq!(s.font_size, Some(12));
    assert_eq!(s.font_family, Some(3));
    assert_eq!(s.color, None);
}

#[test]
fn merged_overrides_set_fields_and_accumulates_flags() {
    let base = Style::new().bold().with_font_size(10);
    let over = Style::new().italic().with_font_size(14);
    let m = base.merged(over);
    assert!(m.bold);
    assert!(m.italic);
    assert_eq!(m.font_size, Some(14));
}

#[test]
fn font_sizes_default_and_lookup() {
    let fs = mdlayout::config::FontSize::default();
    assert_eq!(fs.get("h1"), 22);
    assert_eq!(fs.get("h3"), 17);
    assert_eq!(fs.get("h6"), 12);
    assert_eq!(fs.get("p"), 10);
    assert_eq!(fs.title, 25);
    assert_eq!(
        mdlayout::config::Highlight::default(),
        mdlayout::config::Highlight::all
    );
}
