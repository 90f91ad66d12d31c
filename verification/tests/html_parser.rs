use browser_core::dom::{AttrMap, ElementData, NodeType};
use browser_core::html_parser::HtmlParser;

#[test]
fn test_parse_node() {
    let mut parser = HtmlParser::new("div class=\"testc\" id=\"testi\">");
    let node = parser.parse_node();
    let element_data = NodeType::Element(ElementData {
        tag_name: String::from("div"),
        attributes: {
            let mut m = AttrMap::new();
            m.insert(String::from("class"), String::from("testc"));
            m.insert(String::from("id"), String::from("testi"));
            m
        },
    });
    assert_eq!(node.node_type, element_data);
    if let NodeType::Element(data) = node.node_type {
        assert_eq!(data.tag_name, "div");
        assert_eq!(data.attributes.get("class").unwrap(), "testc");
        assert_eq!(data.attributes.get("id").unwrap(), "testi");
    }
}

#[test]
fn test_parse_nodes() {
    let mut parser = HtmlParser::new("<div class=\"testc\" id=\"testi\">");
    let nodes = parser.parse_nodes();
    assert_eq!(nodes.len(), 1);
    if let NodeType::Element(data) = &nodes[0].node_type {
        assert_eq!(data.tag_name, "div");
        assert_eq!(data.attributes.get("class").unwrap(), "testc");
        assert_eq!(data.attributes.get("id").unwrap(), "testi");
    }
}

#[test]
fn test_parse_text_node() {
    let mut parser = HtmlParser::new("test");
    let node = parser.parse_text_node();
    assert_eq!(node.node_type, NodeType::Text(String::from("test")));
    let mut parser = HtmlParser::new("test<");
    let node = parser.parse_text_node();
    assert_eq!(node.node_type, NodeType::Text(String::from("test")));
}

#[test]
fn test_parse_comment_node() {
    let mut parser = HtmlParser::new("--test-->");
    let node = parser.parse_comment_node();
    assert_eq!(node.node_type, NodeType::Comment(String::from("test")));
}

#[test]
fn test_parse_attributes() {
    let mut parser = HtmlParser::new("class=\"testc\" id=\"testi\">");
    let attributes = parser.parse_attributes();
    assert_eq!(attributes.get("class").unwrap(), "testc");
    assert_eq!(attributes.get("id").unwrap(), "testi");
}

#[test]
fn test_parse_attr_value() {
    let mut parser = HtmlParser::new("\"testc\" id=\"testi\">");
    let value = parser.parse_attr_value();
    assert_eq!(value, "testc");
}

// The splice-up recovery: a missing close tag promotes the inner
// element's children to siblings instead of failing, so the outer
// element still closes where its own close tag stands.
#[test]
fn test_mismatched_close_tag_recovery() {
    let mut parser = HtmlParser::new("<div><span></div>");
    let nodes = parser.parse_nodes();
    assert_eq!(nodes.len(), 1);
    if let NodeType::Element(data) = &nodes[0].node_type {
        assert_eq!(data.tag_name, "div");
    } else {
        panic!("expected a div element");
    }
    assert_eq!(nodes[0].children.len(), 1);
    if let NodeType::Element(data) = &nodes[0].children[0].node_type {
        assert_eq!(data.tag_name, "span");
    } else {
        panic!("expected a span child");
    }
}

// Attribute names are lowercased; values keep their case.
#[test]
fn test_attribute_names_lowercased() {
    let mut parser = HtmlParser::new("<div CLASS=\"Big\">");
    let nodes = parser.parse_nodes();
    if let NodeType::Element(data) = &nodes[0].node_type {
        assert_eq!(data.attributes.get("class").unwrap(), "Big");
        assert!(data.attributes.get("CLASS").is_none());
    } else {
        panic!("expected an element");
    }
}

// Text runs collapse each whitespace run to a single space.
#[test]
fn test_text_whitespace_collapses() {
    let mut parser = HtmlParser::new("a  b\n\tc<");
    let node = parser.parse_text_node();
    assert_eq!(node.node_type, NodeType::Text(String::from("a b c")));
}

// A comment without its two dashes is swallowed up to the next `>` and
// becomes an empty comment.
#[test]
fn test_malformed_comment_recovers_empty() {
    let mut parser = HtmlParser::new("-oops>x");
    let node = parser.parse_comment_node();
    assert_eq!(node.node_type, NodeType::Comment(String::from("")));
    let mut parser = HtmlParser::new("doctype html>");
    let node = parser.parse_comment_node();
    assert_eq!(node.node_type, NodeType::Comment(String::from("")));
}

// A nested comment opener collapses the whole comment to an empty one.
#[test]
fn test_nested_comment_opener_collapses() {
    let mut parser = HtmlParser::new("--a<!--b-->");
    let node = parser.parse_comment_node();
    assert_eq!(node.node_type, NodeType::Comment(String::from("")));
}

// Unquoted and single-quoted attribute values are read like the
// double-quoted form.
#[test]
fn test_attr_value_quoting_forms() {
    let mut parser = HtmlParser::new("<div a=plain b='single' c=\"double\">");
    let nodes = parser.parse_nodes();
    if let NodeType::Element(data) = &nodes[0].node_type {
        assert_eq!(data.attributes.get("a").unwrap(), "plain");
        assert_eq!(data.attributes.get("b").unwrap(), "single");
        assert_eq!(data.attributes.get("c").unwrap(), "double");
    } else {
        panic!("expected an element");
    }
}
