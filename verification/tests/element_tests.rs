use mmbr::element::Element;
use mmbr::element::HtmlElementKind;

#[test]
fn element_test() {
    let element = Element::new(HtmlElementKind::Html);
    assert_eq!(element.to_string(), "html");
}

#[test]
fn tag_names_round_trip() {
    let kinds = [
        HtmlElementKind::Html,
        HtmlElementKind::Head,
        HtmlElementKind::Body,
        HtmlElementKind::Title,
        HtmlElementKind::P,
        HtmlElementKind::Div,
        HtmlElementKind::Span,
        HtmlElementKind::H1,
        HtmlElementKind::H2,
    ];
    for kind in kinds {
        let name = Element::new(kind).to_string();
        let back = Element::from_str(name.as_str()).unwrap();
        assert_eq!(*back.kind(), kind);
    }
}

#[test]
fn tag_name_texts() {
    assert_eq!(Element::new(HtmlElementKind::Head).to_string(), "head");
    assert_eq!(Element::new(HtmlElementKind::Body).to_string(), "body");
    assert_eq!(Element::new(HtmlElementKind::Title).to_string(), "title");
    assert_eq!(Element::new(HtmlElementKind::P).to_string(), "p");
    assert_eq!(Element::new(HtmlElementKind::Div).to_string(), "div");
    assert_eq!(Element::new(HtmlElementKind::Span).to_string(), "span");
    assert_eq!(Element::new(HtmlElementKind::H1).to_string(), "h1");
    assert_eq!(Element::new(HtmlElementKind::H2).to_string(), "h2");
}

#[test]
fn unsupported_element_kind_is_refused() {
    assert!(Element::from_str("table").is_none());
    assert!(Element::from_str("").is_none());
    assert!(Element::from_str("HTML").is_none());
    assert!(Element::from_str("h3").is_none());
}
