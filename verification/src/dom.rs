//! The document tree: nodes, element data and attributes, and the style
//! cascade that resolves each node's property map from a stylesheet.

use vstd::prelude::*;
use crate::css::{
    DisplayType, Length, PropertyName, PropertyValue, PropertyValueV, RuleV, Selector, SelectorV,
    StyleMap, Stylesheet, dup_value, lemma_sm_insert_wf, sm_extend, sm_get, sm_insert, sm_wf,
};
use crate::css_parser::{spec_skip, until_pred};
use crate::text::str_eq;

verus! {

/// One node of the document tree; it owns its children outright. The
/// style map is empty until the cascade runs.
#[derive(Debug, PartialEq)]
pub struct Node {
    pub children: Vec<Node>,
    pub node_type: NodeType,
    pub styles: StyleMap,
}

/// What a node is: a text run, an element, or a comment.
#[derive(Debug, PartialEq, Eq)]
pub enum NodeType {
    Text(String),
    Element(ElementData),
    Comment(String),
}

/// An element's tag name and attributes.
#[derive(Debug, PartialEq, Eq)]
pub struct ElementData {
    pub tag_name: String,
    pub attributes: AttrMap,
}

/// An attribute mapping with unique names, remembered in first-written
/// order.
#[derive(Debug, PartialEq, Eq)]
pub struct AttrMap {
    entries: Vec<(String, String)>,
}

// ---------------------------------------------------------------------------
// Views
// ---------------------------------------------------------------------------

/// View of [`Node`].
#[verifier::ext_equal]
pub struct NodeV {
    pub children: Seq<NodeV>,
    pub node_type: NodeTypeV,
    pub styles: Seq<(PropertyName, PropertyValueV)>,
}

/// View of [`NodeType`].
#[verifier::ext_equal]
pub enum NodeTypeV {
    Text(Seq<char>),
    Element(ElementDataV),
    Comment(Seq<char>),
}

/// View of [`ElementData`].
#[verifier::ext_equal]
pub struct ElementDataV {
    pub tag_name: Seq<char>,
    pub attributes: Seq<(Seq<char>, Seq<char>)>,
}

impl DeepView for AttrMap {
    type V = Seq<(Seq<char>, Seq<char>)>;

    closed spec fn deep_view(&self) -> Seq<(Seq<char>, Seq<char>)> {
        self.entries.deep_view()
    }
}

impl DeepView for ElementData {
    type V = ElementDataV;

    open spec fn deep_view(&self) -> ElementDataV {
        ElementDataV { tag_name: self.tag_name@, attributes: self.attributes.deep_view() }
    }
}

impl DeepView for NodeType {
    type V = NodeTypeV;

    open spec fn deep_view(&self) -> NodeTypeV {
        match self {
            NodeType::Text(s) => NodeTypeV::Text(s@),
            NodeType::Element(e) => NodeTypeV::Element(e.deep_view()),
            NodeType::Comment(s) => NodeTypeV::Comment(s@),
        }
    }
}

/// The view of a whole node tree.
pub open spec fn node_view(n: Node) -> NodeV
    decreases n, 1int,
{
    NodeV {
        children: nodes_view(n.children@),
        node_type: n.node_type.deep_view(),
        styles: n.styles.deep_view(),
    }
}

/// The views of a list of sibling trees, in order.
pub open spec fn nodes_view(ns: Seq<Node>) -> Seq<NodeV>
    decreases ns, 0int,
{
    if ns.len() == 0 {
        Seq::empty()
    } else {
        seq![node_view(ns[0])] + nodes_view(ns.subrange(1, ns.len() as int))
    }
}

/// The element-by-element reading of [`nodes_view`].
pub proof fn lemma_nodes_view(ns: Seq<Node>)
    ensures
        nodes_view(ns).len() == ns.len(),
        forall|i: int| 0 <= i < ns.len() ==> nodes_view(ns)[i] == node_view(#[trigger] ns[i]),
    decreases ns.len(),
{
    if ns.len() > 0 {
        let tail = ns.subrange(1, ns.len() as int);
        lemma_nodes_view(tail);
        assert forall|i: int| 0 <= i < ns.len() implies nodes_view(ns)[i] == node_view(
            #[trigger] ns[i],
        ) by {
            if i > 0 {
                assert(nodes_view(ns)[i] == nodes_view(tail)[i - 1]);
                assert(tail[i - 1] == ns[i]);
            }
        }
    }
}

impl DeepView for Node {
    type V = NodeV;

    open spec fn deep_view(&self) -> NodeV {
        node_view(*self)
    }
}

/// Every style map in the tree binds each name at most once.
pub open spec fn node_wf(n: NodeV) -> bool
    decreases n,
{
    sm_wf(n.styles) && forall|i: int| 0 <= i < n.children.len() ==> node_wf(#[trigger] n.children[i])
}

impl Clone for AttrMap {
    /// A structural copy whose view is the same.
    #[verifier::loop_isolation(false)]
    fn clone(&self) -> (r: AttrMap)
        ensures
            r.deep_view() == self.deep_view(),
    {
        let n = self.entries.len();
        let mut entries: Vec<(String, String)> = Vec::new();
        let mut i: usize = 0;
        while i < n
            invariant
                0 <= i <= n,
                n == self.deep_view().len(),
                entries.deep_view() =~= self.deep_view().subrange(0, i as int),
            decreases n - i,
        {
            let name = self.entries[i].0.clone();
            let value = self.entries[i].1.clone();
            entries.push((name, value));
            proof {
                assert(self.deep_view()[i as int] == (
                    self.entries@[i as int].0@,
                    self.entries@[i as int].1@,
                ));
                assert(entries.deep_view() =~= self.deep_view().subrange(0, i as int + 1));
            }
            i = i + 1;
        }
        let r = AttrMap { entries };
        proof {
            assert(r.deep_view() =~= self.deep_view());
        }
        r
    }
}

impl Clone for ElementData {
    /// A structural copy whose view is the same.
    fn clone(&self) -> (r: ElementData)
        ensures
            r.deep_view() == self.deep_view(),
    {
        ElementData { tag_name: self.tag_name.clone(), attributes: self.attributes.clone() }
    }
}

impl Clone for NodeType {
    /// A structural copy whose view is the same.
    fn clone(&self) -> (r: NodeType)
        ensures
            r.deep_view() == self.deep_view(),
    {
        match self {
            NodeType::Text(s) => NodeType::Text(s.clone()),
            NodeType::Element(e) => NodeType::Element(e.clone()),
            NodeType::Comment(s) => NodeType::Comment(s.clone()),
        }
    }
}

impl Clone for Node {
    /// A structural copy of the whole tree, with the same view.
    #[verifier::loop_isolation(false)]
    fn clone(&self) -> (r: Node)
        ensures
            r.deep_view() == self.deep_view(),
        decreases *self,
    {
        let n = self.children.len();
        let mut children: Vec<Node> = Vec::new();
        let mut i: usize = 0;
        while i < n
            invariant
                0 <= i <= n,
                n == self.children@.len(),
                children@.len() == i,
                forall|j: int| 0 <= j < i ==> (#[trigger] children@[j]).deep_view() == node_view(
                    self.children@[j],
                ),
            decreases n - i,
        {
            let child = self.children[i].clone();
            children.push(child);
            i = i + 1;
        }
        let r = Node {
            children,
            node_type: self.node_type.clone(),
            styles: self.styles.clone(),
        };
        proof {
            lemma_nodes_view(children@);
            lemma_nodes_view(self.children@);
            assert(r.children == children);
            assert forall|j: int| 0 <= j < n implies nodes_view(children@)[j] == nodes_view(
                self.children@,
            )[j] by {
                assert(children@[j].deep_view() == node_view(self.children@[j]));
                assert(children@[j].deep_view() == node_view(children@[j]));
            }
            assert(nodes_view(children@) =~= nodes_view(self.children@));
            assert(r.deep_view() =~= self.deep_view());
        }
        r
    }
}

// ---------------------------------------------------------------------------
// Attribute lookup
// ---------------------------------------------------------------------------

/// Looks an attribute up by name: the first binding wins.
pub open spec fn am_get(m: Seq<(Seq<char>, Seq<char>)>, k: Seq<char>) -> Option<Seq<char>>
    decreases m.len(),
{
    if m.len() == 0 {
        None
    } else if m[0].0 == k {
        Some(m[0].1)
    } else {
        am_get(m.drop_first(), k)
    }
}

/// Binds an attribute: replaces the value in place where the name is
/// already bound, else appends the new binding.
pub open spec fn am_insert(m: Seq<(Seq<char>, Seq<char>)>, k: Seq<char>, v: Seq<char>) -> Seq<
    (Seq<char>, Seq<char>),
>
    decreases m.len(),
{
    if m.len() == 0 {
        seq![(k, v)]
    } else if m[0].0 == k {
        seq![(k, v)] + m.drop_first()
    } else {
        seq![m[0]] + am_insert(m.drop_first(), k, v)
    }
}

impl AttrMap {
    /// An empty attribute mapping.
    pub fn new() -> (r: AttrMap)
        ensures
            r.deep_view() =~= Seq::<(Seq<char>, Seq<char>)>::empty(),
    {
        let r = AttrMap { entries: Vec::new() };
        proof {
            assert(r.deep_view() =~= Seq::<(Seq<char>, Seq<char>)>::empty());
        }
        r
    }

    /// How many attributes are bound.
    pub fn len(&self) -> (r: usize)
        ensures
            r == self.deep_view().len(),
    {
        self.entries.len()
    }

    /// Binds `name` to `value`, replacing in place where already bound.
    #[verifier::loop_isolation(false)]
    pub fn insert(&mut self, name: String, value: String)
        ensures
            final(self).deep_view() == am_insert(old(self).deep_view(), name@, value@),
    {
        let ghost m0 = self.deep_view();
        let n = self.entries.len();
        proof {
            assert(m0.subrange(0, n as int) =~= m0);
            assert(m0.subrange(0, 0) + am_insert(m0.subrange(0, n as int), name@, value@)
                =~= am_insert(m0, name@, value@));
        }
        let mut i: usize = 0;
        while i < n
            invariant
                0 <= i <= n,
                n == self.deep_view().len(),
                m0 == self.deep_view(),
                forall|j: int| 0 <= j < i ==> m0[j].0 != name@,
                am_insert(m0, name@, value@) == m0.subrange(0, i as int) + am_insert(
                    m0.subrange(i as int, n as int),
                    name@,
                    value@,
                ),
            decreases n - i,
        {
            proof {
                assert(m0.subrange(i as int, n as int)[0] == m0[i as int]);
                assert(m0.subrange(i as int, n as int).drop_first() =~= m0.subrange(
                    i as int + 1,
                    n as int,
                ));
            }
            if str_eq(self.entries[i].0.as_str(), name.as_str()) {
                self.entries[i] = (name, value);
                proof {
                    assert(self.entries@[i as int].deep_view() == (name@, value@));
                    assert(self.deep_view() =~= m0.update(i as int, (name@, value@)));
                    assert(am_insert(m0.subrange(i as int, n as int), name@, value@) =~= seq![
                        (name@, value@),
                    ] + m0.subrange(i as int + 1, n as int));
                    assert(m0.subrange(0, i as int) + (seq![(name@, value@)] + m0.subrange(
                        i as int + 1,
                        n as int,
                    )) =~= m0.update(i as int, (name@, value@)));
                }
                return ;
            }
            proof {
                assert(m0.subrange(0, i as int) + (seq![m0[i as int]] + am_insert(
                    m0.subrange(i as int + 1, n as int),
                    name@,
                    value@,
                )) =~= m0.subrange(0, i as int + 1) + am_insert(
                    m0.subrange(i as int + 1, n as int),
                    name@,
                    value@,
                ));
            }
            i = i + 1;
        }
        self.entries.push((name, value));
        proof {
            assert(m0.subrange(i as int, n as int) =~= Seq::<(Seq<char>, Seq<char>)>::empty());
            assert(self.deep_view() =~= m0.push((name@, value@)));
            assert(m0.subrange(0, n as int) + seq![(name@, value@)] =~= m0.push((name@, value@)));
        }
    }

    /// The value bound to `key`, if any.
    #[verifier::loop_isolation(false)]
    pub fn get(&self, key: &str) -> (r: Option<&String>)
        ensures
            match r {
                Some(v) => am_get(self.deep_view(), key@) == Some(v@),
                None => am_get(self.deep_view(), key@) is None,
            },
    {
        let ghost m = self.deep_view();
        let n = self.entries.len();
        proof {
            assert(m.subrange(0, n as int) =~= m);
        }
        let mut i: usize = 0;
        while i < n
            invariant
                0 <= i <= n,
                n == self.deep_view().len(),
                m == self.deep_view(),
                am_get(m, key@) == am_get(m.subrange(i as int, n as int), key@),
            decreases n - i,
        {
            proof {
                assert(m.subrange(i as int, n as int)[0] == m[i as int]);
                assert(m.subrange(i as int, n as int).drop_first() =~= m.subrange(
                    i as int + 1,
                    n as int,
                ));
            }
            if str_eq(self.entries[i].0.as_str(), key) {
                return Some(&self.entries[i].1);
            }
            i = i + 1;
        }
        proof {
            assert(m.subrange(i as int, n as int) =~= Seq::<(Seq<char>, Seq<char>)>::empty());
        }
        None
    }
}

// ---------------------------------------------------------------------------
// Element data
// ---------------------------------------------------------------------------

/// The class tokens of an attribute value: the pieces between single
/// spaces, empty pieces included.
pub open spec fn spec_split_spaces(s: Seq<char>) -> Seq<Seq<char>>
    decreases s.len(),
    via spec_split_spaces_dec
{
    let i = spec_skip(s, 0, until_pred(' '));
    if i >= s.len() {
        seq![s]
    } else {
        seq![s.subrange(0, i)] + spec_split_spaces(s.subrange(i + 1, s.len() as int))
    }
}

#[via_fn]
proof fn spec_split_spaces_dec(s: Seq<char>) {
    crate::css_parser::lemma_skip_bounds(s, 0, until_pred(' '));
}

/// The class tokens of an element: its `class` attribute split on spaces,
/// or nothing when the attribute is missing.
pub open spec fn spec_classes(e: ElementDataV) -> Seq<Seq<char>> {
    match am_get(e.attributes, "class"@) {
        Some(v) => spec_split_spaces(v),
        None => Seq::empty(),
    }
}

impl ElementData {
    /// Element data from a tag name and attributes.
    pub fn new(tag_name: String, attributes: AttrMap) -> (r: ElementData)
        ensures
            r.deep_view() == (ElementDataV {
                tag_name: tag_name@,
                attributes: attributes.deep_view(),
            }),
    {
        ElementData { tag_name, attributes }
    }

    /// The element's `id` attribute, if any.
    pub fn get_id(&self) -> (r: Option<&String>)
        ensures
            match r {
                Some(v) => am_get(self.deep_view().attributes, "id"@) == Some(v@),
                None => am_get(self.deep_view().attributes, "id"@) is None,
            },
    {
        self.attributes.get("id")
    }

    /// The element's class tokens, in the order they are written.
    #[verifier::loop_isolation(false)]
    pub fn get_classes(&self) -> (r: Vec<String>)
        ensures
            r.deep_view() == spec_classes(self.deep_view()),
    {
        match self.attributes.get("class") {
            Some(s) => split_spaces(s.as_str()),
            None => {
                let r = Vec::new();
                proof {
                    assert(r.deep_view() =~= Seq::<Seq<char>>::empty());
                }
                r
            },
        }
    }
}

impl Default for ElementData {
    /// An element with an empty tag name and no attributes.
    fn default() -> (r: ElementData)
        ensures
            r.deep_view() == (ElementDataV {
                tag_name: Seq::<char>::empty(),
                attributes: Seq::<(Seq<char>, Seq<char>)>::empty(),
            }),
    {
        let r = ElementData { tag_name: String::new(), attributes: AttrMap::new() };
        proof {
            assert(r.deep_view() =~= (ElementDataV {
                tag_name: Seq::<char>::empty(),
                attributes: Seq::<(Seq<char>, Seq<char>)>::empty(),
            }));
        }
        r
    }
}

/// Splits a string on every single space, empty pieces included.
#[verifier::loop_isolation(false)]
pub fn split_spaces(s: &str) -> (r: Vec<String>)
    ensures
        r.deep_view() == spec_split_spaces(s@),
    decreases s@.len(),
{
    let len = s.unicode_len();
    let mut i: usize = 0;
    while i < len && s.get_char(i) != ' '
        invariant
            0 <= i <= len,
            len == s@.len(),
            spec_skip(s@, 0, until_pred(' ')) == spec_skip(s@, i as int, until_pred(' ')),
        decreases len - i,
    {
        i = i + 1;
    }
    if i == len {
        let mut r: Vec<String> = Vec::new();
        r.push(String::from_str(s));
        proof {
            assert(r.deep_view() =~= seq![s@]);
        }
        r
    } else {
        proof {
            crate::css_parser::lemma_skip_bounds(s@, 0, until_pred(' '));
            assert(!((until_pred(' '))(s@[i as int])));
            assert(i as int == spec_skip(s@, 0, until_pred(' ')));
        }
        let first = String::from_str(s.substring_char(0, i));
        let mut rest = split_spaces(s.substring_char(i + 1, len));
        let mut r: Vec<String> = Vec::new();
        r.push(first);
        r.append(&mut rest);
        proof {
            assert(r.deep_view() =~= seq![s@.subrange(0, i as int)] + spec_split_spaces(
                s@.subrange(i as int + 1, len as int),
            ));
            assert(r.deep_view() =~= spec_split_spaces(s@));
        }
        r
    }
}

// ---------------------------------------------------------------------------
// The style cascade
// ---------------------------------------------------------------------------

/// The defaults every node starts from: width is the full parent width,
/// and a text node flows inline.
pub open spec fn spec_defaults(
    styles: Seq<(PropertyName, PropertyValueV)>,
    node_type: NodeTypeV,
) -> Seq<(PropertyName, PropertyValueV)> {
    let s1 = sm_insert(
        styles,
        PropertyName::Width,
        PropertyValueV::Length(Length::Percent(100)),
    );
    match node_type {
        NodeTypeV::Text(_) => sm_insert(
            s1,
            PropertyName::Display,
            PropertyValueV::Display(DisplayType::Inline),
        ),
        _ => s1,
    }
}

/// Inheritance: only the text color passes from parent to child.
pub open spec fn spec_inherit(
    styles: Seq<(PropertyName, PropertyValueV)>,
    parent: Seq<(PropertyName, PropertyValueV)>,
) -> Seq<(PropertyName, PropertyValueV)> {
    match sm_get(parent, PropertyName::Color) {
        Some(v) => sm_insert(styles, PropertyName::Color, v),
        None => styles,
    }
}

/// A selector's tag category matches the element.
pub open spec fn tag_matches(sel: SelectorV, e: ElementDataV) -> bool {
    match sel.tag_name {
        Some(t) => t == e.tag_name,
        None => false,
    }
}

/// A selector's id category matches the element.
pub open spec fn id_matches(sel: SelectorV, e: ElementDataV) -> bool {
    match (sel.id, am_get(e.attributes, "id"@)) {
        (Some(si), Some(id)) => si == id,
        _ => false,
    }
}

/// A selector's class category matches one of the element's class tokens.
pub open spec fn class_matches(sel: SelectorV, e: ElementDataV) -> bool {
    match sel.class {
        Some(sc) => spec_classes(e).contains(sc),
        None => false,
    }
}

/// One rule applied to an element's styles: each matching category merges
/// the rule's properties, later bindings replacing earlier ones.
pub open spec fn spec_apply_rule(
    styles: Seq<(PropertyName, PropertyValueV)>,
    r: RuleV,
    e: ElementDataV,
) -> Seq<(PropertyName, PropertyValueV)> {
    let m1 = if tag_matches(r.selector, e) {
        sm_extend(styles, r.properties)
    } else {
        styles
    };
    let m2 = if id_matches(r.selector, e) {
        sm_extend(m1, r.properties)
    } else {
        m1
    };
    if class_matches(r.selector, e) {
        sm_extend(m2, r.properties)
    } else {
        m2
    }
}

/// Every rule applied in source order: a later matching rule's value for a
/// property replaces an earlier one's.
pub open spec fn spec_apply_rules(
    styles: Seq<(PropertyName, PropertyValueV)>,
    rules: Seq<RuleV>,
    e: ElementDataV,
) -> Seq<(PropertyName, PropertyValueV)>
    decreases rules.len(),
{
    if rules.len() == 0 {
        styles
    } else {
        spec_apply_rules(
            spec_apply_rule(styles, rules[0], e),
            rules.subrange(1, rules.len() as int),
            e,
        )
    }
}

/// A node's resolved styles: defaults, then inheritance, then for an
/// element every rule in source order.
pub open spec fn spec_resolved(
    n: NodeV,
    rules: Seq<RuleV>,
    parent: Seq<(PropertyName, PropertyValueV)>,
) -> Seq<(PropertyName, PropertyValueV)> {
    let s2 = spec_inherit(spec_defaults(n.styles, n.node_type), parent);
    match n.node_type {
        NodeTypeV::Element(e) => spec_apply_rules(s2, rules, e),
        _ => s2,
    }
}

/// The cascade over a whole tree: each node's styles are resolved top
/// down, and its children inherit from the resolved map.
pub open spec fn spec_cascade(
    n: NodeV,
    rules: Seq<RuleV>,
    parent: Seq<(PropertyName, PropertyValueV)>,
) -> NodeV
    decreases n, 1int,
{
    let resolved = spec_resolved(n, rules, parent);
    NodeV {
        node_type: n.node_type,
        styles: resolved,
        children: spec_cascade_all(n.children, rules, resolved),
    }
}

/// The cascade over a list of sibling trees.
pub open spec fn spec_cascade_all(
    ns: Seq<NodeV>,
    rules: Seq<RuleV>,
    parent: Seq<(PropertyName, PropertyValueV)>,
) -> Seq<NodeV>
    decreases ns, 0int,
{
    if ns.len() == 0 {
        Seq::empty()
    } else {
        seq![spec_cascade(ns[0], rules, parent)] + spec_cascade_all(
            ns.subrange(1, ns.len() as int),
            rules,
            parent,
        )
    }
}

/// The element-by-element reading of [`spec_cascade_all`].
pub proof fn lemma_cascade_all(
    ns: Seq<NodeV>,
    rules: Seq<RuleV>,
    parent: Seq<(PropertyName, PropertyValueV)>,
)
    ensures
        spec_cascade_all(ns, rules, parent).len() == ns.len(),
        forall|i: int|
            0 <= i < ns.len() ==> spec_cascade_all(ns, rules, parent)[i] == spec_cascade(
                #[trigger] ns[i],
                rules,
                parent,
            ),
    decreases ns.len(),
{
    if ns.len() > 0 {
        let tail = ns.subrange(1, ns.len() as int);
        lemma_cascade_all(tail, rules, parent);
        assert forall|i: int| 0 <= i < ns.len() implies spec_cascade_all(ns, rules, parent)[i]
            == spec_cascade(#[trigger] ns[i], rules, parent) by {
            if i > 0 {
                assert(spec_cascade_all(ns, rules, parent)[i] == spec_cascade_all(
                    tail,
                    rules,
                    parent,
                )[i - 1]);
                assert(tail[i - 1] == ns[i]);
            }
        }
    }
}

impl Node {
    /// A node from its type and children, with no styles yet.
    pub fn new(node_type: NodeType, children: Vec<Node>) -> (r: Node)
        ensures
            r.deep_view() == (NodeV {
                children: nodes_view(children@),
                node_type: node_type.deep_view(),
                styles: Seq::empty(),
            }),
            r.deep_view().styles =~= Seq::<(PropertyName, PropertyValueV)>::empty(),
    {
        let r = Node { node_type, children, styles: StyleMap::new() };
        proof {
            assert(r.deep_view().styles =~= Seq::<(PropertyName, PropertyValueV)>::empty());
            assert(r.deep_view() =~= (NodeV {
                children: nodes_view(r.children@),
                node_type: r.node_type.deep_view(),
                styles: Seq::empty(),
            }));
        }
        r
    }

    /// Sets the defaults: full width, and inline flow for a text node.
    fn set_default_styles(&mut self)
        ensures
            final(self).node_type == old(self).node_type,
            final(self).children == old(self).children,
            final(self).styles.deep_view() == spec_defaults(
                old(self).styles.deep_view(),
                old(self).node_type.deep_view(),
            ),
            old(self).styles.wf() ==> final(self).styles.wf(),
    {
        self.styles.insert(
            PropertyName::Width,
            PropertyValue::Length(Length::Percent(100)),
        );
        proof {
            lemma_sm_insert_wf(
                old(self).styles.deep_view(),
                PropertyName::Width,
                PropertyValueV::Length(Length::Percent(100)),
            );
        }
        if let NodeType::Text(_s) = &self.node_type {
            self.styles.insert(
                PropertyName::Display,
                PropertyValue::Display(DisplayType::Inline),
            );
        }
    }

    /// Copies the parent's text color down; nothing else is inherited.
    fn inherit_styles(&mut self, parent_styles: &StyleMap)
        ensures
            final(self).node_type == old(self).node_type,
            final(self).children == old(self).children,
            final(self).styles.deep_view() == spec_inherit(
                old(self).styles.deep_view(),
                parent_styles.deep_view(),
            ),
            old(self).styles.wf() ==> final(self).styles.wf(),
    {
        match parent_styles.get(PropertyName::Color) {
            Some(v) => {
                let value = dup_value(v);
                self.styles.insert(PropertyName::Color, value);
                proof {
                    lemma_sm_insert_wf(
                        old(self).styles.deep_view(),
                        PropertyName::Color,
                        value.deep_view(),
                    );
                }
            },
            None => {},
        }
    }

    /// Resolves this node's styles and then its children's, the children
    /// inheriting from this node's resolved map.
    #[verifier::loop_isolation(false)]
    fn add_styles_rec(&mut self, stylesheet: &Stylesheet, parent_styles: &StyleMap)
        requires
            node_wf(old(self).deep_view()),
            parent_styles.wf(),
        ensures
            final(self).deep_view() == spec_cascade(
                old(self).deep_view(),
                stylesheet.deep_view(),
                parent_styles.deep_view(),
            ),
            node_wf(final(self).deep_view()),
        decreases old(self).deep_view(),
    {
        proof {
            assert(old(self).deep_view().styles == old(self).styles.deep_view());
        }
        self.set_default_styles();
        self.inherit_styles(parent_styles);
        let ghost rules_v = stylesheet.deep_view();
        let ghost inh = self.styles.deep_view();
        let elem: Option<ElementData> = match &self.node_type {
            NodeType::Element(e) => Some(e.clone()),
            _ => None,
        };
        match elem {
            Some(e) => {
                let ghost ev = e.deep_view();
                proof {
                    assert(old(self).node_type.deep_view() == NodeTypeV::Element(ev));
                    assert(rules_v.subrange(0, rules_v.len() as int) =~= rules_v);
                }
                let n = stylesheet.rules.len();
                let mut i: usize = 0;
                while i < n
                    invariant
                        0 <= i <= n,
                        n == rules_v.len(),
                        self.node_type == old(self).node_type,
                        self.children == old(self).children,
                        self.styles.wf(),
                        spec_apply_rules(inh, rules_v, ev) == spec_apply_rules(
                            self.styles.deep_view(),
                            rules_v.subrange(i as int, n as int),
                            ev,
                        ),
                    decreases n - i,
                {
                    proof {
                        assert(rules_v.subrange(i as int, n as int)[0] == rules_v[i as int]);
                        assert(rules_v.subrange(i as int, n as int).drop_first() =~= rules_v
                            .subrange(i as int + 1, n as int));
                        assert(rules_v.subrange(i as int, n as int).subrange(
                            1,
                            rules_v.subrange(i as int, n as int).len() as int,
                        ) =~= rules_v.subrange(i as int + 1, n as int));
                        assert(stylesheet.rules@[i as int].deep_view() == rules_v[i as int]);
                    }
                    let ghost before = self.styles.deep_view();
                    let rule = &stylesheet.rules[i];
                    if Node::tag_sel_matches(&rule.selector, &e) {
                        self.styles.extend_from(&rule.properties);
                        proof {
                            crate::css::lemma_sm_extend_wf(before, rule.properties.deep_view());
                        }
                    }
                    let ghost m1 = self.styles.deep_view();
                    if Node::id_sel_matches(&rule.selector, &e) {
                        self.styles.extend_from(&rule.properties);
                        proof {
                            crate::css::lemma_sm_extend_wf(m1, rule.properties.deep_view());
                        }
                    }
                    let ghost m2 = self.styles.deep_view();
                    if Node::class_sel_matches(&rule.selector, &e) {
                        self.styles.extend_from(&rule.properties);
                        proof {
                            crate::css::lemma_sm_extend_wf(m2, rule.properties.deep_view());
                        }
                    }
                    proof {
                        assert(self.styles.deep_view() == spec_apply_rule(
                            before,
                            rules_v[i as int],
                            ev,
                        ));
                    }
                    i = i + 1;
                }
                proof {
                    assert(rules_v.subrange(n as int, n as int) =~= Seq::<RuleV>::empty());
                    assert(self.styles.deep_view() == spec_apply_rules(inh, rules_v, ev));
                }
            },
            None => {},
        }
        let ghost resolved = self.styles.deep_view();
        proof {
            assert(resolved == spec_resolved(
                old(self).deep_view(),
                rules_v,
                parent_styles.deep_view(),
            ));
        }
        let n = self.children.len();
        let ghost orig = self.children@;
        proof {
            lemma_nodes_view(orig);
        }
        let mut i: usize = 0;
        while i < n
            invariant
                0 <= i <= n,
                n == orig.len(),
                self.children@.len() == n,
                self.node_type == old(self).node_type,
                self.styles.deep_view() == resolved,
                self.styles.wf(),
                forall|j: int| 0 <= j < n - i ==> self.children@[j] == orig[i + j],
                forall|j: int|
                    n - i <= j < n ==> (#[trigger] self.children@[j]).deep_view() == spec_cascade(
                        node_view(orig[j - (n - i)]),
                        rules_v,
                        resolved,
                    ) && node_wf(self.children@[j].deep_view()),
            decreases n - i,
        {
            let mut child = self.children.remove(0);
            proof {
                assert(child == orig[i as int]);
                assert(old(self).deep_view().children[i as int] == node_view(orig[i as int]));
                assert(node_wf(child.deep_view()));
                assert(decreases_to!(old(self).deep_view() => old(self).deep_view().children));
                assert(decreases_to!(old(self).deep_view().children => old(
                    self,
                ).deep_view().children[i as int]));
            }
            child.add_styles_rec(stylesheet, &self.styles);
            self.children.push(child);
            i = i + 1;
        }
        proof {
            lemma_cascade_all(old(self).deep_view().children, rules_v, resolved);
            lemma_nodes_view(self.children@);
            assert forall|j: int| 0 <= j < n implies nodes_view(self.children@)[j]
                == spec_cascade_all(old(self).deep_view().children, rules_v, resolved)[j] by {
                assert(self.children@[j].deep_view() == spec_cascade(
                    node_view(orig[j]),
                    rules_v,
                    resolved,
                ));
                assert(old(self).deep_view().children[j] == node_view(orig[j]));
            }
            assert(nodes_view(self.children@) =~= spec_cascade_all(
                old(self).deep_view().children,
                rules_v,
                resolved,
            ));
            assert(final(self).deep_view() =~= spec_cascade(
                old(self).deep_view(),
                rules_v,
                parent_styles.deep_view(),
            ));
            assert forall|j: int| 0 <= j < n implies node_wf(
                #[trigger] final(self).deep_view().children[j],
            ) by {
                assert(final(self).deep_view().children[j] == self.children@[j].deep_view());
            }
        }
    }

    /// Resolves the styles of the whole tree from the stylesheet, starting
    /// with nothing to inherit.
    pub fn add_styles(&mut self, stylesheet: &Stylesheet)
        requires
            node_wf(old(self).deep_view()),
        ensures
            final(self).deep_view() == spec_cascade(
                old(self).deep_view(),
                stylesheet.deep_view(),
                Seq::empty(),
            ),
            node_wf(final(self).deep_view()),
    {
        let empty = StyleMap::new();
        proof {
            assert(empty.deep_view() =~= Seq::<(PropertyName, PropertyValueV)>::empty());
        }
        self.add_styles_rec(stylesheet, &empty);
    }

    /// Whether the selector's tag category matches the element.
    fn tag_sel_matches(selector: &Selector, element: &ElementData) -> (r: bool)
        ensures
            r == tag_matches(selector.deep_view(), element.deep_view()),
    {
        match &selector.tag_name {
            Some(t) => str_eq(t.as_str(), element.tag_name.as_str()),
            None => false,
        }
    }

    /// Whether the selector's id category matches the element.
    fn id_sel_matches(selector: &Selector, element: &ElementData) -> (r: bool)
        ensures
            r == id_matches(selector.deep_view(), element.deep_view()),
    {
        match &selector.id {
            Some(si) => match element.get_id() {
                Some(id) => str_eq(si.as_str(), id.as_str()),
                None => false,
            },
            None => false,
        }
    }

    /// Whether the selector's class category matches one of the element's
    /// class tokens.
    #[verifier::loop_isolation(false)]
    fn class_sel_matches(selector: &Selector, element: &ElementData) -> (r: bool)
        ensures
            r == class_matches(selector.deep_view(), element.deep_view()),
    {
        match &selector.class {
            Some(sc) => {
                let classes = element.get_classes();
                let n = classes.len();
                let mut i: usize = 0;
                while i < n
                    invariant
                        0 <= i <= n,
                        n == classes.deep_view().len(),
                        classes.deep_view() == spec_classes(element.deep_view()),
                        forall|j: int| 0 <= j < i ==> classes.deep_view()[j] != sc@,
                    decreases n - i,
                {
                    if str_eq(classes[i].as_str(), sc.as_str()) {
                        proof {
                            assert(classes.deep_view()[i as int] == sc@);
                            assert(spec_classes(element.deep_view()).contains(sc@));
                        }
                        return true;
                    }
                    i = i + 1;
                }
                proof {
                    assert(!spec_classes(element.deep_view()).contains(sc@)) by {
                        if spec_classes(element.deep_view()).contains(sc@) {
                            let j = choose|j: int|
                                0 <= j < n && spec_classes(element.deep_view())[j] == sc@;
                        }
                    }
                }
                false
            },
            None => false,
        }
    }
}

// ---------------------------------------------------------------------------
// Laws of the cascade
// ---------------------------------------------------------------------------

/// The entries the defaults stage writes.
pub open spec fn defaults_pairs(node_type: NodeTypeV) -> Seq<(PropertyName, PropertyValueV)> {
    let base = seq![
        (PropertyName::Width, PropertyValueV::Length(Length::Percent(100))),
    ];
    match node_type {
        NodeTypeV::Text(_) => base.push(
            (PropertyName::Display, PropertyValueV::Display(DisplayType::Inline)),
        ),
        _ => base,
    }
}

/// The entries inheritance writes.
pub open spec fn inherit_pairs(parent: Seq<(PropertyName, PropertyValueV)>) -> Seq<
    (PropertyName, PropertyValueV),
> {
    match sm_get(parent, PropertyName::Color) {
        Some(v) => seq![(PropertyName::Color, v)],
        None => Seq::empty(),
    }
}

/// The entries one rule writes on an element: its properties once per
/// matching category.
pub open spec fn rule_pairs(r: RuleV, e: ElementDataV) -> Seq<(PropertyName, PropertyValueV)> {
    let p1 = if tag_matches(r.selector, e) {
        r.properties
    } else {
        Seq::empty()
    };
    let p2 = if id_matches(r.selector, e) {
        p1 + r.properties
    } else {
        p1
    };
    if class_matches(r.selector, e) {
        p2 + r.properties
    } else {
        p2
    }
}

/// The entries a whole stylesheet writes on an element, in source order.
pub open spec fn rules_pairs(rules: Seq<RuleV>, e: ElementDataV) -> Seq<
    (PropertyName, PropertyValueV),
>
    decreases rules.len(),
{
    if rules.len() == 0 {
        Seq::empty()
    } else {
        rule_pairs(rules[0], e) + rules_pairs(rules.subrange(1, rules.len() as int), e)
    }
}

/// Everything the cascade writes on one node, in writing order. It depends
/// on the node's type, the stylesheet and the parent's resolved styles,
/// never on the node's own styles.
pub open spec fn cascade_pairs(
    node_type: NodeTypeV,
    rules: Seq<RuleV>,
    parent: Seq<(PropertyName, PropertyValueV)>,
) -> Seq<(PropertyName, PropertyValueV)> {
    let base = defaults_pairs(node_type) + inherit_pairs(parent);
    match node_type {
        NodeTypeV::Element(e) => base + rules_pairs(rules, e),
        _ => base,
    }
}

/// The defaults stage is an extend by its entries.
proof fn lemma_defaults_pairs(styles: Seq<(PropertyName, PropertyValueV)>, t: NodeTypeV)
    ensures
        spec_defaults(styles, t) == sm_extend(styles, defaults_pairs(t)),
{
    reveal_with_fuel(sm_extend, 4);
    let p = defaults_pairs(t);
    match t {
        NodeTypeV::Text(_) => {
            assert(p.drop_first() =~= seq![
                (PropertyName::Display, PropertyValueV::Display(DisplayType::Inline)),
            ]);
            assert(p.drop_first().drop_first() =~= Seq::<(PropertyName, PropertyValueV)>::empty());
        },
        _ => {
            assert(p.drop_first() =~= Seq::<(PropertyName, PropertyValueV)>::empty());
        },
    }
}

/// The inheritance stage is an extend by its entries.
proof fn lemma_inherit_pairs(
    styles: Seq<(PropertyName, PropertyValueV)>,
    parent: Seq<(PropertyName, PropertyValueV)>,
)
    ensures
        spec_inherit(styles, parent) == sm_extend(styles, inherit_pairs(parent)),
{
    reveal_with_fuel(sm_extend, 3);
    let p = inherit_pairs(parent);
    match sm_get(parent, PropertyName::Color) {
        Some(v) => {
            assert(p.drop_first() =~= Seq::<(PropertyName, PropertyValueV)>::empty());
        },
        None => {},
    }
}

/// One rule's application is an extend by its entries.
proof fn lemma_rule_pairs(styles: Seq<(PropertyName, PropertyValueV)>, r: RuleV, e: ElementDataV)
    ensures
        spec_apply_rule(styles, r, e) == sm_extend(styles, rule_pairs(r, e)),
{
    let p1 = if tag_matches(r.selector, e) {
        r.properties
    } else {
        Seq::<(PropertyName, PropertyValueV)>::empty()
    };
    let p2 = if id_matches(r.selector, e) {
        p1 + r.properties
    } else {
        p1
    };
    let m1 = if tag_matches(r.selector, e) {
        sm_extend(styles, r.properties)
    } else {
        styles
    };
    let m2 = if id_matches(r.selector, e) {
        sm_extend(m1, r.properties)
    } else {
        m1
    };
    assert(m1 == sm_extend(styles, p1)) by {
        if !tag_matches(r.selector, e) {
            assert(sm_extend(styles, Seq::<(PropertyName, PropertyValueV)>::empty()) == styles);
        }
    }
    crate::css::lemma_sm_extend_assoc(styles, p1, r.properties);
    assert(m2 == sm_extend(styles, p2));
    crate::css::lemma_sm_extend_assoc(styles, p2, r.properties);
}

/// A stylesheet's application is an extend by its entries.
proof fn lemma_rules_pairs(
    styles: Seq<(PropertyName, PropertyValueV)>,
    rules: Seq<RuleV>,
    e: ElementDataV,
)
    ensures
        spec_apply_rules(styles, rules, e) == sm_extend(styles, rules_pairs(rules, e)),
    decreases rules.len(),
{
    if rules.len() == 0 {
    } else {
        let tail = rules.subrange(1, rules.len() as int);
        lemma_rule_pairs(styles, rules[0], e);
        lemma_rules_pairs(spec_apply_rule(styles, rules[0], e), tail, e);
        crate::css::lemma_sm_extend_assoc(styles, rule_pairs(rules[0], e), rules_pairs(tail, e));
    }
}

/// Resolving a node's styles is an extend by the cascade's entries, which
/// do not depend on the styles being resolved.
pub proof fn lemma_resolved_pairs(
    n: NodeV,
    rules: Seq<RuleV>,
    parent: Seq<(PropertyName, PropertyValueV)>,
)
    ensures
        spec_resolved(n, rules, parent) == sm_extend(
            n.styles,
            cascade_pairs(n.node_type, rules, parent),
        ),
{
    lemma_defaults_pairs(n.styles, n.node_type);
    lemma_inherit_pairs(spec_defaults(n.styles, n.node_type), parent);
    crate::css::lemma_sm_extend_assoc(n.styles, defaults_pairs(n.node_type), inherit_pairs(parent));
    match n.node_type {
        NodeTypeV::Element(e) => {
            let s2 = spec_inherit(spec_defaults(n.styles, n.node_type), parent);
            lemma_rules_pairs(s2, rules, e);
            crate::css::lemma_sm_extend_assoc(
                n.styles,
                defaults_pairs(n.node_type) + inherit_pairs(parent),
                rules_pairs(rules, e),
            );
        },
        _ => {},
    }
}

/// The cascade keeps every style map in the tree well formed.
pub proof fn lemma_cascade_wf(
    n: NodeV,
    rules: Seq<RuleV>,
    parent: Seq<(PropertyName, PropertyValueV)>,
)
    requires
        node_wf(n),
    ensures
        node_wf(spec_cascade(n, rules, parent)),
        spec_cascade(n, rules, parent).node_type == n.node_type,
    decreases n, 1int,
{
    let resolved = spec_resolved(n, rules, parent);
    lemma_resolved_pairs(n, rules, parent);
    crate::css::lemma_sm_extend_wf(n.styles, cascade_pairs(n.node_type, rules, parent));
    lemma_cascade_all_wf(n.children, rules, resolved);
    let out = spec_cascade(n, rules, parent);
    lemma_cascade_all(n.children, rules, resolved);
    assert forall|i: int| 0 <= i < out.children.len() implies node_wf(#[trigger] out.children[i]) by {
        assert(out.children[i] == spec_cascade(n.children[i], rules, resolved));
    }
}

/// The cascade keeps every style map of a list of sibling trees well
/// formed.
pub proof fn lemma_cascade_all_wf(
    ns: Seq<NodeV>,
    rules: Seq<RuleV>,
    parent: Seq<(PropertyName, PropertyValueV)>,
)
    requires
        forall|i: int| 0 <= i < ns.len() ==> node_wf(#[trigger] ns[i]),
    ensures
        forall|i: int|
            0 <= i < ns.len() ==> node_wf(spec_cascade(#[trigger] ns[i], rules, parent)),
    decreases ns, 0int,
{
    if ns.len() > 0 {
        lemma_cascade_wf(ns[0], rules, parent);
        let tail = ns.subrange(1, ns.len() as int);
        assert forall|i: int| 0 <= i < tail.len() implies node_wf(#[trigger] tail[i]) by {
            assert(tail[i] == ns[i + 1]);
        }
        lemma_cascade_all_wf(tail, rules, parent);
        assert forall|i: int|
            0 <= i < ns.len() implies node_wf(spec_cascade(#[trigger] ns[i], rules, parent)) by {
            if i > 0 {
                assert(ns[i] == tail[i - 1]);
            }
        }
    }
}

/// Applying the same stylesheet twice resolves every node to exactly the
/// styles one application gives: the cascade is idempotent.
pub proof fn lemma_cascade_idempotent(
    n: NodeV,
    rules: Seq<RuleV>,
    parent: Seq<(PropertyName, PropertyValueV)>,
)
    requires
        node_wf(n),
    ensures
        spec_cascade(spec_cascade(n, rules, parent), rules, parent) == spec_cascade(
            n,
            rules,
            parent,
        ),
    decreases n, 1int,
{
    let n1 = spec_cascade(n, rules, parent);
    let resolved = spec_resolved(n, rules, parent);
    let pairs = cascade_pairs(n.node_type, rules, parent);
    lemma_resolved_pairs(n, rules, parent);
    assert(n1.node_type == n.node_type);
    lemma_resolved_pairs(n1, rules, parent);
    crate::css::lemma_sm_extend_idempotent(n.styles, pairs);
    assert(spec_resolved(n1, rules, parent) == resolved);
    lemma_cascade_all(n.children, rules, resolved);
    lemma_cascade_all_wf(n.children, rules, resolved);
    lemma_cascade_all_idempotent(n.children, rules, resolved);
    assert(spec_cascade(n1, rules, parent) =~= n1);
}

/// Idempotence of the cascade over a list of sibling trees.
pub proof fn lemma_cascade_all_idempotent(
    ns: Seq<NodeV>,
    rules: Seq<RuleV>,
    parent: Seq<(PropertyName, PropertyValueV)>,
)
    requires
        forall|i: int| 0 <= i < ns.len() ==> node_wf(#[trigger] ns[i]),
    ensures
        spec_cascade_all(spec_cascade_all(ns, rules, parent), rules, parent) == spec_cascade_all(
            ns,
            rules,
            parent,
        ),
    decreases ns, 0int,
{
    if ns.len() > 0 {
        let tail = ns.subrange(1, ns.len() as int);
        lemma_cascade_idempotent(ns[0], rules, parent);
        assert forall|i: int| 0 <= i < tail.len() implies node_wf(#[trigger] tail[i]) by {
            assert(tail[i] == ns[i + 1]);
        }
        lemma_cascade_all_idempotent(tail, rules, parent);
        let out = spec_cascade_all(ns, rules, parent);
        assert(out[0] == spec_cascade(ns[0], rules, parent));
        assert(out.subrange(1, out.len() as int) =~= spec_cascade_all(tail, rules, parent)) by {
            lemma_cascade_all(ns, rules, parent);
            lemma_cascade_all(tail, rules, parent);
            assert forall|i: int|
                0 <= i < tail.len() implies out.subrange(1, out.len() as int)[i]
                == spec_cascade_all(tail, rules, parent)[i] by {
                assert(out[i + 1] == spec_cascade(ns[i + 1], rules, parent));
                assert(tail[i] == ns[i + 1]);
            }
        }
        assert(spec_cascade_all(out, rules, parent) =~= out);
    }
}

/// Within one rule, a matching rule binds a property to its last value
/// for it.
proof fn lemma_rule_binds(
    styles: Seq<(PropertyName, PropertyValueV)>,
    r: RuleV,
    e: ElementDataV,
    k: PropertyName,
)
    requires
        tag_matches(r.selector, e) || id_matches(r.selector, e) || class_matches(r.selector, e),
        crate::css::pairs_last(r.properties, k) is Some,
    ensures
        sm_get(spec_apply_rule(styles, r, e), k) == crate::css::pairs_last(r.properties, k),
{
    let m1 = if tag_matches(r.selector, e) {
        sm_extend(styles, r.properties)
    } else {
        styles
    };
    let m2 = if id_matches(r.selector, e) {
        sm_extend(m1, r.properties)
    } else {
        m1
    };
    crate::css::lemma_sm_extend_get(styles, r.properties, k);
    crate::css::lemma_sm_extend_get(m1, r.properties, k);
    crate::css::lemma_sm_extend_get(m2, r.properties, k);
}

/// Applying one more rule at the end applies it to the result of the
/// earlier ones.
proof fn lemma_apply_rules_push(
    styles: Seq<(PropertyName, PropertyValueV)>,
    rules: Seq<RuleV>,
    r: RuleV,
    e: ElementDataV,
)
    ensures
        spec_apply_rules(styles, rules.push(r), e) == spec_apply_rule(
            spec_apply_rules(styles, rules, e),
            r,
            e,
        ),
    decreases rules.len(),
{
    reveal_with_fuel(spec_apply_rules, 3);
    if rules.len() == 0 {
        assert(rules.push(r)[0] == r);
        assert(rules.push(r).subrange(1, 1) =~= Seq::<RuleV>::empty());
    } else {
        assert(rules.push(r)[0] == rules[0]);
        assert(rules.push(r).subrange(1, rules.len() as int + 1) =~= rules.subrange(
            1,
            rules.len() as int,
        ).push(r));
        lemma_apply_rules_push(
            spec_apply_rule(styles, rules[0], e),
            rules.subrange(1, rules.len() as int),
            r,
            e,
        );
    }
}

/// Later matching rule wins: when the last rule of a stylesheet matches an
/// element and binds a property, the element resolves that property to
/// that rule's value, whatever the earlier rules said.
pub proof fn lemma_later_rule_wins(
    styles: Seq<(PropertyName, PropertyValueV)>,
    rules: Seq<RuleV>,
    r: RuleV,
    e: ElementDataV,
    k: PropertyName,
)
    requires
        tag_matches(r.selector, e) || id_matches(r.selector, e) || class_matches(r.selector, e),
        sm_wf(r.properties),
        sm_get(r.properties, k) is Some,
    ensures
        sm_get(spec_apply_rules(styles, rules.push(r), e), k) == sm_get(r.properties, k),
{
    lemma_apply_rules_push(styles, rules, r, e);
    lemma_pairs_last_wf(r.properties, k);
    lemma_rule_binds(spec_apply_rules(styles, rules, e), r, e, k);
}

/// In a well-formed entry list the last binding is the only one.
proof fn lemma_pairs_last_wf(m: Seq<(PropertyName, PropertyValueV)>, k: PropertyName)
    requires
        sm_wf(m),
    ensures
        crate::css::pairs_last(m, k) == sm_get(m, k),
    decreases m.len(),
{
    if m.len() > 0 {
        lemma_pairs_last_wf(m.drop_first(), k);
        if m[0].0 == k {
            crate::css::lemma_sm_get_none(m.drop_first(), k);
        }
    }
}

/// The cascade's override law at the node level: for an element node, a
/// stylesheet whose last rule matches the element resolves each property
/// that rule binds to that rule's value.
pub proof fn lemma_cascade_override(
    n: NodeV,
    rules: Seq<RuleV>,
    r: RuleV,
    parent: Seq<(PropertyName, PropertyValueV)>,
    e: ElementDataV,
    k: PropertyName,
)
    requires
        n.node_type == NodeTypeV::Element(e),
        tag_matches(r.selector, e) || id_matches(r.selector, e) || class_matches(r.selector, e),
        sm_wf(r.properties),
        sm_get(r.properties, k) is Some,
    ensures
        sm_get(spec_cascade(n, rules.push(r), parent).styles, k) == sm_get(r.properties, k),
{
    let s2 = spec_inherit(spec_defaults(n.styles, n.node_type), parent);
    lemma_later_rule_wins(s2, rules, r, e, k);
}

// ---------------------------------------------------------------------------
// The script boundary: a read-only snapshot query
// ---------------------------------------------------------------------------

/// The first element with the given `id`, in document order, the element
/// itself before its children.
pub open spec fn spec_find_by_id(n: NodeV, id: Seq<char>) -> Option<NodeV>
    decreases n, 1int,
{
    match n.node_type {
        NodeTypeV::Element(e) => if am_get(e.attributes, "id"@) == Some(id) {
            Some(n)
        } else {
            spec_find_in(n.children, id)
        },
        _ => spec_find_in(n.children, id),
    }
}

/// The first element with the given `id` among a list of sibling trees.
pub open spec fn spec_find_in(ns: Seq<NodeV>, id: Seq<char>) -> Option<NodeV>
    decreases ns, 0int,
{
    if ns.len() == 0 {
        None
    } else {
        match spec_find_by_id(ns[0], id) {
            Some(m) => Some(m),
            None => spec_find_in(ns.subrange(1, ns.len() as int), id),
        }
    }
}

/// The style map of a node rendered as string-keyed entries, the form the
/// script host reads.
pub open spec fn spec_style_entries(m: Seq<(PropertyName, PropertyValueV)>) -> Seq<
    (Seq<char>, Seq<char>),
> {
    Seq::new(m.len(), |i: int| (crate::css::spec_property_name_str(m[i].0), crate::css::spec_value_str(m[i].1)))
}

impl Node {
    /// The first element with the given `id`, in document order.
    #[verifier::loop_isolation(false)]
    pub fn find_element_by_id<'n>(&'n self, id: &str) -> (r: Option<&'n Node>)
        ensures
            match r {
                Some(m) => spec_find_by_id(self.deep_view(), id@) == Some(m.deep_view()),
                None => spec_find_by_id(self.deep_view(), id@) is None,
            },
        decreases *self,
    {
        let matches_here = match &self.node_type {
            NodeType::Element(e) => match e.attributes.get("id") {
                Some(node_id) => str_eq(node_id.as_str(), id),
                None => false,
            },
            _ => false,
        };
        if matches_here {
            return Some(self);
        }
        let n = self.children.len();
        proof {
            lemma_nodes_view(self.children@);
            assert(self.deep_view().children.subrange(0, n as int) =~= self.deep_view().children);
        }
        let mut i: usize = 0;
        while i < n
            invariant
                0 <= i <= n,
                n == self.children@.len(),
                spec_find_in(self.deep_view().children, id@) == spec_find_in(
                    self.deep_view().children.subrange(i as int, n as int),
                    id@,
                ),
            decreases n - i,
        {
            proof {
                let cs = self.deep_view().children;
                assert(cs.subrange(i as int, n as int)[0] == cs[i as int]);
                assert(cs.subrange(i as int, n as int).subrange(
                    1,
                    cs.subrange(i as int, n as int).len() as int,
                ) =~= cs.subrange(i as int + 1, n as int));
                assert(cs[i as int] == node_view(self.children@[i as int]));
            }
            let found = self.children[i].find_element_by_id(id);
            match found {
                Some(m) => {
                    return Some(m);
                },
                None => {},
            }
            i = i + 1;
        }
        proof {
            assert(self.deep_view().children.subrange(n as int, n as int) =~= Seq::<NodeV>::empty());
        }
        None
    }

    /// The snapshot the script host reads for one element: its tag name
    /// and its resolved style map as string-keyed entries, or nothing when
    /// no element carries the `id`.
    #[verifier::loop_isolation(false)]
    pub fn element_style_snapshot(&self, id: &str) -> (r: Option<(String, Vec<(String, String)>)>)
        ensures
            match r {
                Some(pair) => {
                    let found = spec_find_by_id(self.deep_view(), id@);
                    found is Some && (found->Some_0.node_type is Element) && pair.0@
                        == found->Some_0.node_type->Element_0.tag_name && pair.1.deep_view()
                        == spec_style_entries(found->Some_0.styles)
                },
                None => {
                    let found = spec_find_by_id(self.deep_view(), id@);
                    found is None || !(found->Some_0.node_type is Element)
                },
            },
    {
        let found = self.find_element_by_id(id);
        match found {
            Some(node) => match &node.node_type {
                NodeType::Element(e) => {
                    let tag = e.tag_name.clone();
                    let n = node.styles.len();
                    let mut entries: Vec<(String, String)> = Vec::new();
                    let ghost m = node.styles.deep_view();
                    let mut i: usize = 0;
                    while i < n
                        invariant
                            0 <= i <= n,
                            n == m.len(),
                            m == node.styles.deep_view(),
                            entries.deep_view() =~= spec_style_entries(m).subrange(0, i as int),
                        decreases n - i,
                    {
                        let entry = node.styles.entry_at(i);
                        let key = String::from_str(entry.0.to_str());
                        let value = entry.1.to_str();
                        entries.push((key, value));
                        proof {
                            assert(entries.deep_view() =~= spec_style_entries(m).subrange(
                                0,
                                i as int + 1,
                            ));
                        }
                        i = i + 1;
                    }
                    proof {
                        assert(spec_style_entries(m).subrange(0, n as int) =~= spec_style_entries(
                            m,
                        ));
                    }
                    Some((tag, entries))
                },
                _ => None,
            },
            None => None,
        }
    }
}

} // verus!
