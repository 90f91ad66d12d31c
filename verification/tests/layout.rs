use browser_core::css_parser::CssParser;
use browser_core::html_parser::HtmlParser;
use browser_core::layout::LayoutBox;
use browser_core::render;

#[test]
fn test_build_layout_tree() {
    let html1 = r#"
<html>

<head>
    <link rel="stylesheet" type="text/css" href="style.css"></link>
    <title>Example</title>
</head>

<body>
<div id="blue">f</div>
<div class="orange"></div>
<div class="black"></div>
<div class="green"></div>

</body>

</html>
    "#;
    let html2 = r#"
<html>

<head>
    <link rel="stylesheet" type="text/css" href="style.css"></link>
    <title>Example</title>
</head>

<body>
<div id="blue"></div>
<div class="orange"></div>
<div class="black"></div>
<div class="green"></div>

</body>

</html>
    "#;
    let mut parser = HtmlParser::new(html1);
    let nodes = parser.parse_nodes();
    let mut body = nodes[0].children[1].clone();

    let css = r#"
    .orange {
    background-color: #ff6600;
    padding: 20px;
    margin: 50px;
}

#blue{
    background-color: #0a1e77;
    padding: 20px;
    margin: 10px;
}

.black {
    background-color: #000000;
    padding: 20px;
    margin: 30px;
}

.green {
    background-color: #2ebe1a;
    padding: 20px;
    margin: 10px;
}

    "#;
    let mut parser = CssParser::new(&css);
    let stylesheet = parser.parse_stylesheet();
    body.add_styles(&stylesheet);
    let boxes = LayoutBox::build_layout_tree(&body);
    let boxes = render::layout_box_tree_to_vector(boxes);

    let _body = &boxes[0];
    let _blue = &boxes[1];
    let orange1 = &boxes[2];

    let mut parser = HtmlParser::new(html2);
    let nodes = parser.parse_nodes();
    let mut body = nodes[0].children[1].clone();
    body.add_styles(&stylesheet);
    let boxes = LayoutBox::build_layout_tree(&body);
    let boxes = render::layout_box_tree_to_vector(boxes);
    let orange2 = &boxes[2];

    // the text inside the blue box moves the orange box's final position
    // one line down, but its flow geometry is the same with or without
    // that text
    assert_eq!(orange1.dimensions, orange2.dimensions);
}

#[test]
fn test_calculate_position() {
    let html = r#"<html>

<head>
    <link rel="stylesheet" type="text/css" href="style.css"></link>
    <title>Example</title>
</head>

<body>
<div id="blue">ddgsd</div>
<div class="orange"></div>
<div class="green">dfssdf</div>

</body>

</html>"#;

    let css = r#"body {
    color: #772233;
    margin: 10px;
}

.orange {
    background-color: #b46c2b;
    padding: 10px;
    width: 20px;
    margin: 1px;
}

#blue{
    background-color: #093183;
    padding: 20px;
    margin: 10px;
}

.black {
    background-color: #000000;
    padding: 20px;
    margin: 30px;
}

.green {
    background-color: #2ebe1a;
    padding: 20px;
    margin: 10px;
}

.txt {
    background-color: #ffffff;
    font-size: 20px;
    font-family: Arial, Helvetica, sans-serif;
}"#;
    let mut parser = HtmlParser::new(html);
    let nodes = parser.parse_nodes();
    let mut body = nodes[0].children[1].clone();
    let mut parser = CssParser::new(&css);
    let stylesheet = parser.parse_stylesheet();
    body.add_styles(&stylesheet);
    let boxes = LayoutBox::build_layout_tree(&body);
    let boxes = render::layout_box_tree_to_vector(boxes);
    let blue = &boxes[1];
    let orange = &boxes[2];
    let green = &boxes[3];

    // the body carries a ten-pixel margin, so the full available width
    // its block children span is the page width less both margins; the
    // orange box sets its own width instead
    assert_eq!(blue.dimensions.width, render::WIDTH as i16 - 20);
    assert_eq!(orange.dimensions.width, 20);
    assert_eq!(green.dimensions.width, render::WIDTH as i16 - 20);
}

// The end-to-end scenario: a block box with no width of its own spans the
// page, and a sibling's vertical offset is the text-bearing box's full
// consumed extent plus its own top margin.
#[test]
fn test_layout_end_to_end() {
    let html = "<html><head></head><body><div id=\"blue\">ddgsd</div><div class=\"orange\"></div></body></html>";
    let css = "#blue { padding: 20px; margin: 10px; } .orange { padding: 10px; width: 20px; margin: 1px; }";
    let mut parser = HtmlParser::new(html);
    let nodes = parser.parse_nodes();
    let mut body = nodes[0].children[1].clone();
    let stylesheet = CssParser::new(css).parse_stylesheet();
    body.add_styles(&stylesheet);
    let boxes = LayoutBox::build_layout_tree(&body);
    let boxes = render::layout_box_tree_to_vector(boxes);
    assert_eq!(boxes.len(), 3);
    let blue = &boxes[1];
    let orange = &boxes[2];
    // block boxes span the full available width regardless of padding
    assert_eq!(blue.dimensions.width, render::WIDTH as i16);
    // the blue box consumes its padded height (40), its margins (20) and
    // one text line (20); the orange box sits below that plus its own
    // one-pixel margin
    assert_eq!(blue.actual_dimensions.height, 60);
    assert_eq!(orange.actual_dimensions.y, 40 + 10 + 10 + 20 + 1);
    // the text leaf is anchored at the blue box's padding-adjusted corner
    let content = blue.content.as_ref().unwrap();
    assert_eq!(content.text, "ddgsd");
    assert_eq!(content.x, 10 + 20);
    assert_eq!(content.y, 10 + 20);
}

// The painter's flattening is depth first: each box, then its subtree.
#[test]
fn test_flatten_order() {
    let html = "<html><head></head><body><div id=\"a\"><div id=\"b\"></div></div><div id=\"c\"></div></body></html>";
    let mut parser = HtmlParser::new(html);
    let nodes = parser.parse_nodes();
    let mut body = nodes[0].children[1].clone();
    let stylesheet = CssParser::new("p { color: red; }").parse_stylesheet();
    body.add_styles(&stylesheet);
    let boxes = LayoutBox::build_layout_tree(&body);
    assert_eq!(boxes.len(), 1);
    assert_eq!(boxes[0].children.len(), 2);
    let flat = render::layout_box_tree_to_vector(boxes);
    assert_eq!(flat.len(), 4);
    assert_eq!(flat[0].name, "body");
    assert_eq!(flat[1].children.len(), 1);
    assert_eq!(flat[2].children.len(), 0);
    assert_eq!(flat[3].children.len(), 0);
}
