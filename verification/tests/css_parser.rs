use browser_core::css::{Color, CssError, Length, PropertyName, PropertyValue, Stylesheet};
use browser_core::css_parser::CssParser;

// The three-rule stylesheet the parsing tests share.
fn assert_stylesheet(stylesheet: &Stylesheet) {
    assert_eq!(stylesheet.rules.len(), 3);
    // body
    assert_eq!(stylesheet.rules[0].selector.tag_name, Some("body".to_string()));
    assert_eq!(stylesheet.rules[0].selector.id, None);
    assert_eq!(stylesheet.rules[0].selector.class, None);
    // .orange
    assert_eq!(stylesheet.rules[1].selector.tag_name, None);
    assert_eq!(stylesheet.rules[1].selector.class, Some("orange".to_string()));
    assert_eq!(stylesheet.rules[1].selector.id, None);
    // #blue
    assert_eq!(stylesheet.rules[2].selector.tag_name, None);
    assert_eq!(stylesheet.rules[2].selector.class, None);
    assert_eq!(stylesheet.rules[2].selector.id, Some("blue".to_string()));
}

#[test]
fn test_parse_stylesheet() {
    let css_input = r#"
body {
    color: #772233;
    margin: 10px;
}

.orange {
    background-color: orange;
}

#blue {
    background-color: blue;
    }
    "#;
    let mut parser = CssParser::new(&css_input);
    let stylesheet = parser.parse_stylesheet();
    assert_stylesheet(&stylesheet);
    let css_input = r#"
body {
    color: #772233;
    margin: 10px;
}

.orange {
    background-color: orange;
}

#blue {
    background-color: blue;
    }"#;
    let mut parser = CssParser::new(&css_input);
    let stylesheet = parser.parse_stylesheet();
    assert_stylesheet(&stylesheet);
}

#[test]
fn test_parse_rule() {
    // 1 property
    let mut parser = CssParser::new("  body {   color: red; }");
    let rule = parser.parse_rule();
    assert_eq!(rule.selector.tag_name, Some("body".to_string()));
    assert_eq!(rule.properties.len(), 1);
    // 2 properties
    let mut parser = CssParser::new("  body {   color: red;  \n margin: 10px;  }");
    let rule = parser.parse_rule();
    assert_eq!(rule.selector.tag_name, Some("body".to_string()));
    assert_eq!(rule.properties.len(), 2);
}

#[test]
fn test_parse_selector() {
    // test tag name
    let mut parser = CssParser::new("  body  { color: red; }");
    let selector = parser.parse_selector();
    assert_eq!(selector.tag_name, Some("body".to_string()));
    assert_eq!(selector.id, None);
    assert_eq!(selector.class, None);
    // test id
    let mut parser = CssParser::new("  #id    { color: red; }");
    let selector = parser.parse_selector();
    assert_eq!(selector.tag_name, None);
    assert_eq!(selector.id, Some("id".to_string()));
    assert_eq!(selector.class, None);
    // test class
    let mut parser = CssParser::new("  .class   { color: red; }");
    let selector = parser.parse_selector();
    assert_eq!(selector.tag_name, None);
    assert_eq!(selector.id, None);
    assert_eq!(selector.class, Some("class".to_string()));
}

#[test]
fn test_parse_property() {
    // test named color
    let mut parser = CssParser::new("  color: red; }");
    let _property = parser.parse_property();
}

#[test]
fn test_process_property_members_color() {
    let color_key = String::from("color");
    let color_value = String::from("red");
    let (name, value) = CssParser::process_property_members(color_key, color_value).unwrap();
    assert_eq!(name, PropertyName::Color);
    assert_eq!(value, PropertyValue::Color(Color::Named("red".to_string())));
}

#[test]
fn test_process_property_members_margin() {
    let margin_key = String::from("margin");
    let margin_value = String::from("10px");
    let (name, value) = CssParser::process_property_members(margin_key, margin_value).unwrap();
    assert_eq!(name, PropertyName::Margin);
    assert_eq!(value, PropertyValue::Length(Length::Px(10)));
}

#[test]
fn test_process_property_members_background_color() {
    let background_color_key = String::from("background-color");
    let background_color_value = String::from("red");
    let (name, value) =
        CssParser::process_property_members(background_color_key, background_color_value).unwrap();
    assert_eq!(name, PropertyName::BackgroundColor);
    assert_eq!(value, PropertyValue::Color(Color::Named("red".to_string())));
}

#[test]
fn test_parse_color() {
    // test named color
    let value = String::from("red");
    let color = CssParser::parse_color(value).unwrap();
    assert_eq!(color, Color::Named("red".to_string()));
    // test hex color
    let value = String::from("#ff0000");
    let color = CssParser::parse_color(value).unwrap();
    assert_eq!(color, Color::Hex(0xff0000));
}

#[test]
fn test_parse_length() {
    // test px
    let value = String::from("10px");
    let length = CssParser::parse_length(value).unwrap();
    assert_eq!(length, Length::Px(10));
    // test %
    let value = String::from("10%");
    let length = CssParser::parse_length(value).unwrap();
    assert_eq!(length, Length::Percent(10));
}

// Percentages stop at one hundred; everything beyond is rejected, and a
// number that cannot be read at all is a different error.
#[test]
fn test_percent_range() {
    assert_eq!(
        CssParser::parse_length(String::from("100%")),
        Ok(Length::Percent(100))
    );
    assert_eq!(
        CssParser::parse_length(String::from("0%")),
        Ok(Length::Percent(0))
    );
    assert_eq!(
        CssParser::parse_length(String::from("101%")),
        Err(CssError::PercentOutOfRange)
    );
    assert_eq!(
        CssParser::parse_length(String::from("70000%")),
        Err(CssError::BadNumber)
    );
    assert_eq!(
        CssParser::parse_length(String::from("abc%")),
        Err(CssError::BadNumber)
    );
}

// Pixel lengths round-trip through their text form, negative values
// included; `em` and `vh` are taken at face value as pixels.
#[test]
fn test_px_round_trip() {
    assert_eq!(Length::Px(10).to_str(), "10px");
    assert_eq!(Length::Px(-17).to_str(), "-17px");
    assert_eq!(Length::Percent(42).to_str(), "42%");
    assert_eq!(
        CssParser::parse_length(Length::Px(10).to_str()),
        Ok(Length::Px(10))
    );
    assert_eq!(
        CssParser::parse_length(Length::Px(-17).to_str()),
        Ok(Length::Px(-17))
    );
    assert_eq!(
        CssParser::parse_length(Length::Px(32767).to_str()),
        Ok(Length::Px(32767))
    );
    assert_eq!(
        CssParser::parse_length(Length::Px(-32768).to_str()),
        Ok(Length::Px(-32768))
    );
    assert_eq!(
        CssParser::parse_length(String::from("3em")),
        Ok(Length::Px(3))
    );
    assert_eq!(
        CssParser::parse_length(String::from("5vh")),
        Ok(Length::Px(5))
    );
    assert_eq!(
        CssParser::parse_length(String::from("x")),
        Err(CssError::BadNumber)
    );
}

// A bad hex color is an error; `rgb(...)` is recognized but resolves to
// black.
#[test]
fn test_color_forms() {
    assert_eq!(
        CssParser::parse_color(String::from("#zzz")),
        Err(CssError::BadHexColor)
    );
    assert_eq!(
        CssParser::parse_color(String::from("#")),
        Err(CssError::BadHexColor)
    );
    assert_eq!(
        CssParser::parse_color(String::from("rgb(1,2,3)")),
        Ok(Color::Rgb(0, 0, 0))
    );
    assert_eq!(Color::Named(String::from("orange")).get_rgb(), (255, 165, 0));
    assert_eq!(Color::Named(String::from("nonsense")).get_rgb(), (0, 0, 0));
    assert_eq!(Color::Hex(0x102030).get_rgb(), (0x10, 0x20, 0x30));
    assert_eq!(Color::Hex(0xff6600).get_rgb_str(), "rdb(255, 102, 0)");
}

// One rejected declaration leaves an error behind but never discards the
// rest of the rule or stylesheet.
#[test]
fn test_bad_declaration_is_collected() {
    let css = ".a { width: 200%; color: red; } .b { height: 10px; }";
    let mut parser = CssParser::new(css);
    let stylesheet = parser.parse_stylesheet();
    assert_eq!(stylesheet.rules.len(), 2);
    assert_eq!(stylesheet.rules[0].properties.len(), 1);
    assert_eq!(
        stylesheet.rules[0].properties.get(PropertyName::Color),
        Some(&PropertyValue::Color(Color::Named(String::from("red"))))
    );
    assert_eq!(stylesheet.rules[1].properties.len(), 1);
    assert_eq!(parser.errors().len(), 1);
    assert_eq!(parser.errors()[0], CssError::PercentOutOfRange);
}

// An unknown property name is preserved whole under its fallback form.
#[test]
fn test_unknown_property_kept() {
    let (name, value) = CssParser::process_property_members(
        String::from("font-size"),
        String::from("20px"),
    )
    .unwrap();
    assert_eq!(name, PropertyName::Other);
    assert_eq!(value, PropertyValue::Other(String::from("20px")));
}
