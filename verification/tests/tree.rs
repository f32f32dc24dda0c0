use browser_core::node::ElementKind;
use browser_core::node::NodeKind;
use browser_core::node::Window;
use browser_core::parser::HtmlParser;
use browser_core::token::HtmlTokenizer;

fn parse(html: &str) -> Window {
    let tokenizer = HtmlTokenizer::new(html.to_string());
    HtmlParser::new(tokenizer).construct_tree()
}

fn kind_at(w: &Window, handle: usize) -> Option<ElementKind> {
    w.node(handle).element_kind()
}

fn text_at(w: &Window, handle: usize) -> Option<String> {
    match w.node(handle).kind() {
        NodeKind::Text(s) => Some(s.clone()),
        _ => None,
    }
}

#[test]
fn test_full_document_tree_shape() {
    let w = parse("<html><head></head><body><p>hi</p></body></html>");
    let doc = w.document();
    // the document's single child is the html element
    let html = w.node(doc).first_child().expect("document should have a child");
    assert_eq!(kind_at(&w, html), Some(ElementKind::Html));
    assert!(w.node(html).next_sibling().is_none());
    // html has the head and the body, in that order
    let head = w.node(html).first_child().expect("html should have children");
    assert_eq!(kind_at(&w, head), Some(ElementKind::Head));
    let body = w.node(head).next_sibling().expect("head should have a sibling");
    assert_eq!(kind_at(&w, body), Some(ElementKind::Body));
    assert!(w.node(body).next_sibling().is_none());
    // the body holds a paragraph holding the text
    let p = w.node(body).first_child().expect("body should have a child");
    assert_eq!(kind_at(&w, p), Some(ElementKind::P));
    let text = w.node(p).first_child().expect("p should have a child");
    assert_eq!(text_at(&w, text), Some("hi".to_string()));
    assert!(w.node(text).first_child().is_none());
    assert!(w.node(text).next_sibling().is_none());
}

#[test]
fn test_backward_links_match_forward_links() {
    let w = parse("<html><head></head><body><p>hi</p></body></html>");
    let doc = w.document();
    let html = w.node(doc).first_child().unwrap();
    let head = w.node(html).first_child().unwrap();
    let body = w.node(head).next_sibling().unwrap();
    assert_eq!(w.node(html).parent(), Some(doc));
    assert_eq!(w.node(head).parent(), Some(html));
    assert_eq!(w.node(body).parent(), Some(html));
    assert_eq!(w.node(body).previous_sibling(), Some(head));
    assert_eq!(w.node(html).last_child(), Some(body));
}

#[test]
fn test_bare_text_still_gets_implicit_skeleton() {
    // Character tokens before any tag are doctype residue and are skipped,
    // and the parse must end rather than loop; the implicit skeleton is
    // still owed and completed at end of input.
    let w = parse("hi");
    let doc = w.document();
    let html = w.node(doc).first_child().expect("implicit html");
    assert_eq!(kind_at(&w, html), Some(ElementKind::Html));
    let head = w.node(html).first_child().expect("implicit head");
    assert_eq!(kind_at(&w, head), Some(ElementKind::Head));
    let body = w.node(head).next_sibling().expect("implicit body");
    assert_eq!(kind_at(&w, body), Some(ElementKind::Body));
    assert!(w.node(body).next_sibling().is_none());
    assert!(w.node(body).first_child().is_none());
    assert_eq!(w.node_count(), 4);
}

#[test]
fn test_headless_text_document_gets_sibling_head_and_body() {
    let w = parse("<html>hi</html>");
    let doc = w.document();
    let html = w.node(doc).first_child().expect("html");
    assert_eq!(kind_at(&w, html), Some(ElementKind::Html));
    let head = w.node(html).first_child().expect("implicit head");
    assert_eq!(kind_at(&w, head), Some(ElementKind::Head));
    let body = w.node(head).next_sibling().expect("implicit body");
    assert_eq!(kind_at(&w, body), Some(ElementKind::Body));
}

#[test]
fn test_headless_document_gets_implicit_skeleton() {
    // A body tag with no head produces the implicit html and head
    // elements, and the parse terminates.
    let w = parse("<body>x</body>");
    let doc = w.document();
    let html = w.node(doc).first_child().expect("implicit html");
    assert_eq!(kind_at(&w, html), Some(ElementKind::Html));
    let head = w.node(html).first_child().expect("implicit head");
    assert_eq!(kind_at(&w, head), Some(ElementKind::Head));
}

#[test]
fn test_walk_visits_every_node_exactly_once() {
    let w = parse("<html><head><style>a b</style></head><body><h1>x</h1><p>y</p></body></html>");
    let order = w.walk();
    assert_eq!(order.len(), w.node_count());
    for (k, handle) in order.iter().enumerate() {
        assert_eq!(*handle, k);
    }
}

#[test]
fn test_walk_on_empty_document() {
    // even an empty input gets the implicit skeleton
    let w = parse("");
    assert_eq!(w.walk(), vec![0, 1, 2, 3]);
}

#[test]
fn test_style_content_becomes_text() {
    let w = parse("<html><head><style>p{}</style></head><body></body></html>");
    let doc = w.document();
    let html = w.node(doc).first_child().unwrap();
    let head = w.node(html).first_child().unwrap();
    let style = w.node(head).first_child().expect("head should hold style");
    assert_eq!(kind_at(&w, style), Some(ElementKind::Style));
    let text = w.node(style).first_child().expect("style should hold text");
    assert_eq!(text_at(&w, text), Some("p{}".to_string()));
}

#[test]
fn test_unknown_tag_is_skipped_not_fatal() {
    let w = parse("<html><head></head><body><img /><p>ok</p></body></html>");
    let doc = w.document();
    let html = w.node(doc).first_child().unwrap();
    let head = w.node(html).first_child().unwrap();
    let body = w.node(head).next_sibling().unwrap();
    // the unsupported img tag left no node behind; p is the body's child
    let p = w.node(body).first_child().expect("body should hold p");
    assert_eq!(kind_at(&w, p), Some(ElementKind::P));
}

#[test]
fn test_unmatched_body_close_is_ignored() {
    let w = parse("</body>");
    // terminates, and the tree holds at most the implicit skeleton
    let order = w.walk();
    assert_eq!(order.len(), w.node_count());
}

#[test]
fn test_element_kind_from_str_rejects_unknown_names() {
    assert_eq!(ElementKind::from_str("html"), Ok(ElementKind::Html));
    assert_eq!(ElementKind::from_str("h2"), Ok(ElementKind::H2));
    assert_eq!(
        ElementKind::from_str("marquee"),
        Err("unimplemented element name \"marquee\"".to_string())
    );
}
