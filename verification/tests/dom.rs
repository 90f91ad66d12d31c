use browser_core::css::{Color, PropertyName, PropertyValue};
use browser_core::css_parser::CssParser;
use browser_core::dom::{AttrMap, ElementData, Node, NodeType};
use browser_core::html_parser::HtmlParser;

#[test]
fn dom_test_add_styles() {
    let mut class_attributes = AttrMap::new();
    let mut id_attributes = AttrMap::new();
    class_attributes.insert("class".to_string(), "orange".to_string());
    id_attributes.insert("id".to_string(), "blue".to_string());
    let mut node = Node::new(
        NodeType::Element(ElementData::new("body".to_string(), AttrMap::new())),
        vec![
            Node::new(
                NodeType::Element(ElementData::new("div".to_string(), class_attributes)),
                vec![],
            ),
            Node::new(
                NodeType::Element(ElementData::new("div".to_string(), id_attributes)),
                vec![],
            ),
        ],
    );
    let css_input = r#"
body {
    color: #772233;
    margin: 10px;
}

.orange {
    background-color: orange;
}

#blue {
    background-color: blue;
    }
    "#;
    let mut parser = CssParser::new(&css_input);
    let stylesheet = parser.parse_stylesheet();
    node.add_styles(&stylesheet);
    // every node gets the width default; body gets color and margin; the
    // children inherit the color and match one rule each
    assert_eq!(
        node.styles.get(PropertyName::Color),
        Some(&PropertyValue::Color(Color::Hex(0x772233)))
    );
    assert_eq!(
        node.children[0].styles.get(PropertyName::BackgroundColor),
        Some(&PropertyValue::Color(Color::Named("orange".to_string())))
    );
    assert_eq!(
        node.children[1].styles.get(PropertyName::BackgroundColor),
        Some(&PropertyValue::Color(Color::Named("blue".to_string())))
    );
    // only the color is inherited
    assert_eq!(
        node.children[0].styles.get(PropertyName::Color),
        Some(&PropertyValue::Color(Color::Hex(0x772233)))
    );
    assert_eq!(node.children[0].styles.get(PropertyName::Margin), None);
}

// Applying the same stylesheet twice resolves every node to the same
// styles as applying it once.
#[test]
fn test_cascade_idempotent() {
    let html = "<html><head></head><body><div id=\"blue\">x</div><div class=\"orange\"></div></body></html>";
    let css = "body { color: #102030; margin: 4px; } .orange { background-color: orange; } #blue { width: 50px; }";
    let mut parser = HtmlParser::new(html);
    let nodes = parser.parse_nodes();
    let mut once = nodes[0].children[1].clone();
    let mut twice = once.clone();
    let stylesheet = CssParser::new(css).parse_stylesheet();
    once.add_styles(&stylesheet);
    twice.add_styles(&stylesheet);
    twice.add_styles(&stylesheet);
    assert_eq!(once, twice);
}

// Later matching rule wins: of two rules for the same class, the second
// decides the value.
#[test]
fn test_cascade_override() {
    let html = "<html><head></head><body><div class=\"orange\"></div></body></html>";
    let css = ".orange { background-color: orange; } .orange { background-color: blue; }";
    let mut parser = HtmlParser::new(html);
    let nodes = parser.parse_nodes();
    let mut body = nodes[0].children[1].clone();
    let stylesheet = CssParser::new(css).parse_stylesheet();
    body.add_styles(&stylesheet);
    assert_eq!(
        body.children[0].styles.get(PropertyName::BackgroundColor),
        Some(&PropertyValue::Color(Color::Named("blue".to_string())))
    );
}

// The class attribute splits on single spaces, and a rule matches any of
// the tokens.
#[test]
fn test_class_tokens() {
    let mut attrs = AttrMap::new();
    attrs.insert("class".to_string(), "big orange round".to_string());
    let elem = ElementData::new("div".to_string(), attrs);
    let classes = elem.get_classes();
    assert_eq!(classes, vec!["big".to_string(), "orange".to_string(), "round".to_string()]);
    let mut node = Node::new(NodeType::Element(elem), vec![]);
    let css = ".orange { background-color: orange; }";
    let stylesheet = CssParser::new(css).parse_stylesheet();
    node.add_styles(&stylesheet);
    assert_eq!(
        node.styles.get(PropertyName::BackgroundColor),
        Some(&PropertyValue::Color(Color::Named("orange".to_string())))
    );
}

// The script boundary: the first element with an id hands out its tag and
// its resolved styles as string entries.
#[test]
fn test_element_style_snapshot() {
    let html = "<html><head></head><body><div id=\"blue\">x</div></body></html>";
    let css = "#blue { background-color: #0a1e77; }";
    let mut parser = HtmlParser::new(html);
    let nodes = parser.parse_nodes();
    let mut body = nodes[0].children[1].clone();
    let stylesheet = CssParser::new(css).parse_stylesheet();
    body.add_styles(&stylesheet);
    let (tag, entries) = body.element_style_snapshot("blue").unwrap();
    assert_eq!(tag, "div");
    assert!(entries.contains(&("width".to_string(), "100%".to_string())));
    assert!(entries.contains(&("backgroundColor".to_string(), "rdb(10, 30, 119)".to_string())));
    assert!(body.element_style_snapshot("missing").is_none());
}
