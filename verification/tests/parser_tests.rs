use mmbr::element::Element;
use mmbr::element::HtmlElementKind;
use mmbr::html_parser::HtmlPerser;
use mmbr::html_tokenizer::HtmlTokenizer;
use mmbr::node::NodeKind;

fn parse(input: &str) -> HtmlPerser {
    let tokenizer = HtmlTokenizer::new(String::from(input));
    let mut parser = HtmlPerser::new(tokenizer);
    let root = parser.construct_tree();
    assert_eq!(root, 0);
    parser
}

#[test]
fn html_parser_test() {}

#[test]
fn main_test() {}

#[test]
fn text_only_input_is_one_text_node() {
    let parser = parse("hello");
    assert_eq!(parser.node_count(), 2);
    assert_eq!(parser.node(0).kind(), NodeKind::Document);
    let child = parser.node(0).first_child().unwrap();
    assert_eq!(parser.node(child).kind(), NodeKind::Text(String::from("hello")));
    assert!(parser.node(child).next_sibling().is_none());
    assert_eq!(parser.node(0).last_child(), Some(child));
}

#[test]
fn html_element_with_text() {
    let parser = parse("<html>hello</html>");
    assert_eq!(parser.node(0).kind(), NodeKind::Document);
    let html = parser.node(0).first_child().unwrap();
    assert_eq!(
        parser.node(html).kind(),
        NodeKind::Element(Element::new(HtmlElementKind::Html))
    );
    let text = parser.node(html).first_child().unwrap();
    assert_eq!(parser.node(text).kind(), NodeKind::Text(String::from("hello")));
    assert!(parser.node(text).next_sibling().is_none());
}

#[test]
fn characters_coalesce_into_one_text_node() {
    let tokenizer = HtmlTokenizer::new(String::new());
    let mut parser = HtmlPerser::new(tokenizer);
    // insertion point is the empty document root
    parser.insert_char('h');
    parser.insert_char('i');
    assert_eq!(parser.node_count(), 2);
    let child = parser.node(0).first_child().unwrap();
    assert_eq!(parser.node(child).kind(), NodeKind::Text(String::from("hi")));
    assert!(parser.node(child).next_sibling().is_none());
}

#[test]
fn coalescing_through_the_pipeline() {
    let parser = parse("<html>hi");
    let html = parser.node(0).first_child().unwrap();
    let text = parser.node(html).first_child().unwrap();
    assert_eq!(parser.node(text).kind(), NodeKind::Text(String::from("hi")));
    assert!(parser.node(text).next_sibling().is_none());
    assert_eq!(parser.node(html).last_child(), Some(text));
}

#[test]
fn matched_pair_restores_stack_height() {
    // after <html> the stack holds one element; a matched <p></p> pair
    // leaves it at that height again
    let parser = parse("<html><p></p>");
    assert_eq!(parser.stack_depth(), 1);
    let baseline = parse("<html>");
    assert_eq!(baseline.stack_depth(), 1);
}

#[test]
fn leading_whitespace_keeps_tree_shape() {
    let with_ws = parse(" \n<html>");
    let bare = parse("<html>");
    assert_eq!(with_ws.node_count(), bare.node_count());
    assert_eq!(with_ws.node_count(), 2);
    let a = with_ws.node(0).first_child().unwrap();
    let b = bare.node(0).first_child().unwrap();
    assert_eq!(with_ws.node(a).kind(), bare.node(b).kind());
}

#[test]
fn unsupported_tag_creates_no_node() {
    let with_table = parse("<html><table>");
    let bare = parse("<html>");
    assert_eq!(with_table.node_count(), bare.node_count());
    // the insertion point is unchanged: still the html element
    assert_eq!(with_table.stack_depth(), bare.stack_depth());
}

#[test]
fn unknown_end_tag_is_skipped() {
    let parser = parse("<html>x</table>");
    let bare = parse("<html>x");
    assert_eq!(parser.node_count(), bare.node_count());
    assert_eq!(parser.stack_depth(), bare.stack_depth());
}

#[test]
fn end_tag_html_stops_body_processing() {
    let parser = parse("<html>b</html>x");
    // the end tag moves the constructor to its terminal mode; the trailing
    // text creates no node
    assert_eq!(parser.node_count(), 3);
    let bare = parse("<html>b");
    assert_eq!(bare.node_count(), 3);
}

#[test]
fn empty_input_keeps_document_alone() {
    let parser = parse("");
    assert_eq!(parser.node_count(), 1);
    assert!(parser.node(0).first_child().is_none());
    assert!(parser.node(0).last_child().is_none());
}

#[test]
fn body_elements_nest() {
    let parser = parse("<html><body><div><span>");
    let html = parser.node(0).first_child().unwrap();
    let body = parser.node(html).first_child().unwrap();
    assert_eq!(
        parser.node(body).kind(),
        NodeKind::Element(Element::new(HtmlElementKind::Body))
    );
    let div = parser.node(body).first_child().unwrap();
    assert_eq!(
        parser.node(div).kind(),
        NodeKind::Element(Element::new(HtmlElementKind::Div))
    );
    let span = parser.node(div).first_child().unwrap();
    assert_eq!(
        parser.node(span).kind(),
        NodeKind::Element(Element::new(HtmlElementKind::Span))
    );
}

#[test]
fn closed_elements_become_ordered_siblings() {
    let parser = parse("<html><p></p><div>");
    let html = parser.node(0).first_child().unwrap();
    let p = parser.node(html).first_child().unwrap();
    assert_eq!(
        parser.node(p).kind(),
        NodeKind::Element(Element::new(HtmlElementKind::P))
    );
    let div = parser.node(p).next_sibling().unwrap();
    assert_eq!(
        parser.node(div).kind(),
        NodeKind::Element(Element::new(HtmlElementKind::Div))
    );
    assert_eq!(parser.node(div).previous_sibling(), Some(p));
    assert_eq!(parser.node(html).last_child(), Some(div));
    assert_eq!(parser.node(html).first_child(), Some(p));
}

#[test]
fn whitespace_after_html_is_discarded_before_body_text() {
    let parser = parse("<html> x");
    let html = parser.node(0).first_child().unwrap();
    let text = parser.node(html).first_child().unwrap();
    assert_eq!(parser.node(text).kind(), NodeKind::Text(String::from("x")));
}
