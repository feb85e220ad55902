use css_scaffold::css::generate_css;
use css_scaffold::html::{parse_html, CssError};
use css_scaffold::tree::{get_all_classnames, get_classnames_from_node, Document, Node, NodeType};
use css_scaffold::unique::unique;

fn strings(items: &[&str]) -> Vec<String> {
    items.iter().map(|s| s.to_string()).collect()
}

fn element(classes: Option<&[&str]>, children: Option<Vec<NodeType>>) -> NodeType {
    NodeType::Element(Node { children, classes: classes.map(strings) })
}

fn text(t: &str) -> NodeType {
    NodeType::Text(t.to_string())
}

fn css_for(document: Document) -> String {
    generate_css(get_all_classnames(document))
}

#[test]
fn unique_keeps_first_occurrences_in_order() {
    assert_eq!(unique(strings(&["a", "b", "a", "c", "b"])), strings(&["a", "b", "c"]));
}

#[test]
fn unique_of_distinct_values_is_unchanged() {
    let v = strings(&["card", "highlight", "nav", "Card"]);
    assert_eq!(unique(v.clone()), v);
    let once = unique(strings(&["x", "y", "x", "z", "y", "x"]));
    assert_eq!(unique(once.clone()), once);
}

#[test]
fn unique_of_empty_is_empty() {
    assert_eq!(unique(Vec::new()), Vec::<String>::new());
}

#[test]
fn unique_compares_exactly() {
    assert_eq!(unique(strings(&["a", "A", "a ", "a"])), strings(&["a", "A", "a "]));
}

#[test]
fn node_classes_come_in_preorder_with_duplicates() {
    let node = Node {
        classes: Some(strings(&["outer", "shared"])),
        children: Some(vec![
            element(Some(&["first"]), Some(vec![element(Some(&["deep", "shared"]), None)])),
            text("between"),
            element(None, Some(vec![element(Some(&["last"]), None)])),
        ]),
    };
    assert_eq!(
        get_classnames_from_node(node),
        strings(&["outer", "shared", "first", "deep", "shared", "last"])
    );
}

#[test]
fn node_without_classes_or_children_gives_nothing() {
    let node = Node { children: None, classes: None };
    assert_eq!(get_classnames_from_node(node), Vec::<String>::new());
    let empty_lists = Node { children: Some(vec![]), classes: Some(vec![]) };
    assert_eq!(get_classnames_from_node(empty_lists), Vec::<String>::new());
}

#[test]
fn card_and_highlight_give_two_rules() {
    let document = Document {
        children: vec![element(
            Some(&["card", "highlight"]),
            Some(vec![element(Some(&["card"]), None)]),
        )],
    };
    assert_eq!(css_for(document), ".card {\n}\n.highlight {\n}\n");
}

#[test]
fn document_without_classes_gives_empty_css() {
    assert_eq!(css_for(Document { children: vec![] }), "");
    let plain = Document {
        children: vec![
            text("hello"),
            element(None, Some(vec![text("inner"), element(None, None)])),
        ],
    };
    assert_eq!(css_for(plain), "");
}

#[test]
fn first_seen_class_comes_first() {
    let document = Document {
        children: vec![
            element(None, Some(vec![element(Some(&["y"]), None)])),
            element(Some(&["x", "y"]), None),
            element(Some(&["z"]), Some(vec![element(Some(&["x"]), None)])),
        ],
    };
    assert_eq!(get_all_classnames(document), strings(&["y", "x", "z"]));
}

#[test]
fn every_class_gets_exactly_one_rule() {
    let document = Document {
        children: vec![
            element(Some(&["a", "b"]), Some(vec![element(Some(&["b", "c"]), None), text("t")])),
            element(Some(&["c", "a", "d"]), None),
        ],
    };
    let css = css_for(document);
    for c in ["a", "b", "c", "d"] {
        assert_eq!(css.matches(&format!(".{} {{\n}}\n", c)).count(), 1);
    }
    assert_eq!(css, ".a {\n}\n.b {\n}\n.c {\n}\n.d {\n}\n");
}

#[test]
fn generate_css_writes_one_rule() {
    assert_eq!(generate_css(strings(&["card"])), ".card {\n}\n");
}

#[test]
fn generate_css_of_nothing_is_empty() {
    assert_eq!(generate_css(Vec::new()), "");
}

#[test]
fn generate_css_keeps_names_verbatim() {
    assert_eq!(generate_css(strings(&["a.b", "x:hover", "é"])), ".a.b {\n}\n.x:hover {\n}\n.é {\n}\n");
}

#[test]
fn parse_html_lists_classes_and_children() {
    let json = parse_html("<div class=\"card highlight\"><span class=\"card\"></span></div>").unwrap();
    assert!(json.contains("\"classes\":[\"card\",\"highlight\"]"));
    assert!(json.contains("\"classes\":[\"card\"]"));
    assert!(json.contains("\"children\""));
}

#[test]
fn parse_html_of_empty_markup_has_no_children() {
    let json = parse_html("").unwrap();
    assert!(!json.is_empty());
    assert!(!json.contains("\"children\""));
}

#[test]
fn parse_html_rejects_head_in_fragment() {
    assert_eq!(parse_html("<div></div><head></head>"), Err(CssError::Parse));
}

#[test]
fn parse_html_rejects_two_html_roots() {
    assert_eq!(parse_html("<!DOCTYPE html><html></html><html></html>"), Err(CssError::Parse));
}

#[test]
fn error_messages() {
    assert_eq!(CssError::MissingArgument.message(), "No input file provided");
    assert_eq!(CssError::FileRead.message(), "Could not read file");
    assert_eq!(CssError::Parse.message(), "Could not parse HTML");
    assert_eq!(CssError::Serialization.message(), "Could not convert DOM to JSON");
}

#[test]
fn parse_html_gives_the_same_text_for_the_same_markup() {
    let markup = "<div class=\"b a\" id=\"x\" data-z=\"1\" data-a=\"2\"><p class=\"c\">hi</p></div>";
    let first = parse_html(markup).unwrap();
    assert_eq!(parse_html(markup), Ok(first.clone()));
    assert!(first.contains("\"classes\":[\"b\",\"a\"]"));
}

#[test]
fn css_lines_are_selector_then_brace() {
    let css = generate_css(strings(&["b", "a", "a.b"]));
    let lines: Vec<&str> = css.lines().collect();
    assert_eq!(lines, vec![".b {", "}", ".a {", "}", ".a.b {", "}"]);
    assert_eq!(lines.iter().filter(|l| **l == ".b {").count(), 1);
}
