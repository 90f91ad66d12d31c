//! The document-level bookkeeping around the pipeline: the browser state
//! the host drives, and the scan of a document's `head` that tells the
//! host which title to show, which stylesheet to load, and which scripts
//! to run.
//!
//! Loading files, painting, and evaluating scripts are the host's work;
//! the scan only decides, in document order, what the host should do.

use vstd::prelude::*;
use crate::css::Stylesheet;
use crate::dom::{Node, NodeType, NodeTypeV, NodeV, am_get};
use crate::text::str_eq;

verus! {

/// The state a host carries across one pipeline run.
#[derive(Debug)]
pub struct Browser {
    pub html: String,
    pub stylesheet: Stylesheet,
    pub js: String,
    pub nodes: Vec<Node>,
    pub title: String,
}

impl Browser {
    /// A browser over one document's text, with an empty stylesheet, no
    /// script, and the default window title.
    pub fn new(html: String) -> (r: Browser)
        ensures
            r.html@ == html@,
            r.stylesheet.deep_view() =~= Seq::<crate::css::RuleV>::empty(),
            r.js@ == Seq::<char>::empty(),
            r.nodes@ =~= Seq::<Node>::empty(),
            r.title@ == "Browser"@,
    {
        Browser {
            html,
            stylesheet: Stylesheet::default(),
            js: String::new(),
            title: String::from_str("Browser"),
            nodes: Vec::new(),
        }
    }
}

/// One thing the host must do for a `head` element, in document order: a
/// later title or stylesheet replaces an earlier one; an inline script
/// replaces the script collected so far, while a script file's text is
/// appended to it.
#[derive(Debug, PartialEq, Eq)]
pub enum HeadAction {
    /// Show this window title.
    Title(String),
    /// Load and parse the stylesheet at this path.
    LoadStylesheet(String),
    /// Run this inline script text.
    InlineScript(String),
    /// Load and append the script file at this path.
    LoadScript(String),
}

/// View of [`HeadAction`].
#[verifier::ext_equal]
pub enum HeadActionV {
    Title(Seq<char>),
    LoadStylesheet(Seq<char>),
    InlineScript(Seq<char>),
    LoadScript(Seq<char>),
}

impl DeepView for HeadAction {
    type V = HeadActionV;

    open spec fn deep_view(&self) -> HeadActionV {
        match self {
            HeadAction::Title(s) => HeadActionV::Title(s@),
            HeadAction::LoadStylesheet(s) => HeadActionV::LoadStylesheet(s@),
            HeadAction::InlineScript(s) => HeadActionV::InlineScript(s@),
            HeadAction::LoadScript(s) => HeadActionV::LoadScript(s@),
        }
    }
}

/// What one child of `head` asks of the host: a `title` element's first
/// text child names the window; a `link` with `rel=stylesheet` and a
/// `href` selects the stylesheet; a `script` contributes its first
/// nonempty text child and, independently, the file its `src` names.
pub open spec fn spec_head_actions(c: NodeV) -> Seq<HeadActionV> {
    match c.node_type {
        NodeTypeV::Element(e) => {
            let title = if e.tag_name == "title"@ && c.children.len() > 0 && (c.children[0].node_type
                is Text) {
                seq![HeadActionV::Title(c.children[0].node_type->Text_0)]
            } else {
                Seq::empty()
            };
            let link = if e.tag_name == "link"@ && am_get(e.attributes, "rel"@) == Some(
                "stylesheet"@,
            ) && am_get(e.attributes, "href"@) is Some {
                seq![HeadActionV::LoadStylesheet(am_get(e.attributes, "href"@)->Some_0)]
            } else {
                Seq::empty()
            };
            let inline = if e.tag_name == "script"@ && c.children.len() > 0 && (c.children[0].node_type is Text) && c.children[0].node_type->Text_0.len() > 0 {
                seq![HeadActionV::InlineScript(c.children[0].node_type->Text_0)]
            } else {
                Seq::empty()
            };
            let file = if e.tag_name == "script"@ && am_get(e.attributes, "src"@) is Some {
                seq![HeadActionV::LoadScript(am_get(e.attributes, "src"@)->Some_0)]
            } else {
                Seq::empty()
            };
            title + link + inline + file
        },
        _ => Seq::empty(),
    }
}

/// What a whole `head` asks of the host, child by child.
pub open spec fn spec_scan_head(children: Seq<NodeV>) -> Seq<HeadActionV>
    decreases children.len(),
{
    if children.len() == 0 {
        Seq::empty()
    } else {
        spec_head_actions(children[0]) + spec_scan_head(
            children.subrange(1, children.len() as int),
        )
    }
}

/// Scans a document's `head` element and returns, in document order, what
/// the host should do: titles to show, stylesheets to load, scripts to
/// run.
#[verifier::loop_isolation(false)]
pub fn scan_head(head: &Node) -> (r: Vec<HeadAction>)
    ensures
        r.deep_view() == spec_scan_head(head.deep_view().children),
{
    let ghost ns = head.deep_view().children;
    let mut actions: Vec<HeadAction> = Vec::new();
    let n = head.children.len();
    proof {
        crate::dom::lemma_nodes_view(head.children@);
        assert(actions.deep_view() =~= Seq::<HeadActionV>::empty());
        assert(ns.subrange(0, n as int) =~= ns);
    }
    let mut i: usize = 0;
    while i < n
        invariant
            0 <= i <= n,
            n == head.children@.len(),
            ns == head.deep_view().children,
            ns.len() == n,
            forall|j: int| 0 <= j < n ==> ns[j] == crate::dom::node_view(#[trigger] head.children@[j]),
            spec_scan_head(ns) == actions.deep_view() + spec_scan_head(
                ns.subrange(i as int, n as int),
            ),
        decreases n - i,
    {
        proof {
            assert(ns.subrange(i as int, n as int)[0] == ns[i as int]);
            assert(ns.subrange(i as int, n as int).subrange(
                1,
                ns.subrange(i as int, n as int).len() as int,
            ) =~= ns.subrange(i as int + 1, n as int));
        }
        let ghost acts1 = actions.deep_view();
        let child = &head.children[i];
        match &child.node_type {
            NodeType::Element(element_data) => {
                proof {
                    crate::dom::lemma_nodes_view(child.children@);
                }
                if str_eq(element_data.tag_name.as_str(), "title") {
                    if child.children.len() > 0 {
                        if let NodeType::Text(text) = &child.children[0].node_type {
                            actions.push(HeadAction::Title(text.clone()));
                        }
                    }
                }
                if str_eq(element_data.tag_name.as_str(), "link") {
                    let rel_ok = match element_data.attributes.get("rel") {
                        Some(rel) => str_eq(rel.as_str(), "stylesheet"),
                        None => false,
                    };
                    if rel_ok {
                        match element_data.attributes.get("href") {
                            Some(path) => {
                                actions.push(HeadAction::LoadStylesheet(path.clone()));
                            },
                            None => {},
                        }
                    }
                }
                if str_eq(element_data.tag_name.as_str(), "script") {
                    if child.children.len() > 0 {
                        if let NodeType::Text(script) = &child.children[0].node_type {
                            if script.as_str().unicode_len() > 0 {
                                actions.push(HeadAction::InlineScript(script.clone()));
                            }
                        }
                    }
                    match element_data.attributes.get("src") {
                        Some(path) => {
                            actions.push(HeadAction::LoadScript(path.clone()));
                        },
                        None => {},
                    }
                }
            },
            _ => {},
        }
        proof {
            assert(actions.deep_view() =~= acts1 + spec_head_actions(ns[i as int]));
            assert(acts1 + (spec_head_actions(ns[i as int]) + spec_scan_head(
                ns.subrange(i as int + 1, n as int),
            )) =~= actions.deep_view() + spec_scan_head(ns.subrange(i as int + 1, n as int)));
        }
        i = i + 1;
    }
    proof {
        assert(ns.subrange(n as int, n as int) =~= Seq::<NodeV>::empty());
        assert(actions.deep_view() + Seq::<HeadActionV>::empty() =~= actions.deep_view());
    }
    actions
}

} // verus!
