use browser_core::browser::{Browser, HeadAction, scan_head};
use browser_core::html_parser::HtmlParser;

#[test]
fn test_browser_new() {
    let b = Browser::new(String::from("<html></html>"));
    assert_eq!(b.html, "<html></html>");
    assert_eq!(b.title, "Browser");
    assert_eq!(b.js, "");
    assert_eq!(b.stylesheet.rules.len(), 0);
    assert_eq!(b.nodes.len(), 0);
}

// The head scan hands the host its actions in document order: the title,
// the stylesheet behind a `link` with `rel=stylesheet`, an inline script,
// and a script file.
#[test]
fn test_scan_head() {
    let html = "<html><head><title>Example</title><link rel=\"stylesheet\" type=\"text/css\" href=\"style.css\"></link><script>console.log(1)</script><script src=\"app.js\"></script></head><body></body></html>";
    let mut parser = HtmlParser::new(html);
    let nodes = parser.parse_nodes();
    let head = &nodes[0].children[0];
    let actions = scan_head(head);
    assert_eq!(
        actions,
        vec![
            HeadAction::Title(String::from("Example")),
            HeadAction::LoadStylesheet(String::from("style.css")),
            HeadAction::InlineScript(String::from("console.log(1)")),
            HeadAction::LoadScript(String::from("app.js")),
        ]
    );
}

// A link without the stylesheet relation, and a script with neither text
// nor source, ask nothing of the host.
#[test]
fn test_scan_head_ignores_unrelated() {
    let html = "<html><head><link rel=\"icon\" href=\"fav.ico\"></link><script></script></head><body></body></html>";
    let mut parser = HtmlParser::new(html);
    let nodes = parser.parse_nodes();
    let head = &nodes[0].children[0];
    let actions = scan_head(head);
    assert_eq!(actions.len(), 0);
}
