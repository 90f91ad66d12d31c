//! The box-model layout pass: a styled document tree becomes a tree of
//! positioned boxes in one top-down walk.
//!
//! Position arithmetic wraps at the sixteen-bit boundary, matching the
//! fixed-width integer geometry the boxes carry. Each box, while its
//! children are built, exposes two running offsets: a vertical one for
//! block children and a horizontal one for inline children; a child reads
//! them to place itself and pushes them forward for the next sibling, so
//! child order is part of the algorithm, not an artifact.

use vstd::prelude::*;
use vstd::wrapping::i16_specs;
use crate::css::{DisplayType, Length, PropertyName, PropertyValue, PropertyValueV};
use crate::dom::{ElementData, Node, NodeTypeV, NodeType, NodeV, nodes_view, node_view};

verus! {

/// A rectangle: its position and extent.
#[derive(Debug, Clone, Copy, PartialEq, Eq, Structural)]
pub struct Dimensions {
    pub x: i16,
    pub y: i16,
    pub width: i16,
    pub height: i16,
}

/// Four-sided insets, for margins and padding.
#[derive(Debug, Clone, Copy, PartialEq, Eq, Structural)]
pub struct Indentations {
    pub top: i16,
    pub right: i16,
    pub bottom: i16,
    pub left: i16,
}

/// A paint color with its alpha channel.
#[derive(Debug, Clone, Copy, PartialEq, Eq, Structural)]
pub struct Color {
    pub r: u8,
    pub g: u8,
    pub b: u8,
    pub a: u8,
}

/// The two flow modes: block boxes stack vertically, inline boxes flow
/// horizontally.
#[derive(Debug, Clone, Copy, PartialEq, Eq, Structural)]
pub enum BoxType {
    Block,
    Inline,
}

/// A text leaf anchored inside its owning box.
#[derive(Debug, PartialEq, Eq)]
pub struct Content {
    pub x: i16,
    pub y: i16,
    pub text: String,
}

/// One positioned, paint-ready box.
#[derive(Debug, PartialEq)]
pub struct LayoutBox {
    pub dimensions: Dimensions,
    pub actual_dimensions: Dimensions,
    pub content: Option<Content>,
    pub color: Color,
    pub background_color: Color,
    pub name: String,
    pub margin: Indentations,
    pub padding: Indentations,
    pub box_type: BoxType,
    pub children: Vec<LayoutBox>,
}

// ---------------------------------------------------------------------------
// Views and measures
// ---------------------------------------------------------------------------

/// View of [`Content`].
#[verifier::ext_equal]
pub struct ContentV {
    pub x: i16,
    pub y: i16,
    pub text: Seq<char>,
}

/// View of [`LayoutBox`].
#[verifier::ext_equal]
pub struct BoxV {
    pub dimensions: Dimensions,
    pub actual_dimensions: Dimensions,
    pub content: Option<ContentV>,
    pub color: Color,
    pub background_color: Color,
    pub name: Seq<char>,
    pub margin: Indentations,
    pub padding: Indentations,
    pub box_type: BoxType,
    pub children: Seq<BoxV>,
}

impl DeepView for Content {
    type V = ContentV;

    open spec fn deep_view(&self) -> ContentV {
        ContentV { x: self.x, y: self.y, text: self.text@ }
    }
}

/// The view of a whole box tree.
pub open spec fn box_view(b: LayoutBox) -> BoxV
    decreases b, 1int,
{
    BoxV {
        dimensions: b.dimensions,
        actual_dimensions: b.actual_dimensions,
        content: b.content.deep_view(),
        color: b.color,
        background_color: b.background_color,
        name: b.name@,
        margin: b.margin,
        padding: b.padding,
        box_type: b.box_type,
        children: boxes_view(b.children@),
    }
}

/// The views of a list of sibling boxes, in order.
pub open spec fn boxes_view(bs: Seq<LayoutBox>) -> Seq<BoxV>
    decreases bs, 0int,
{
    if bs.len() == 0 {
        Seq::empty()
    } else {
        seq![box_view(bs[0])] + boxes_view(bs.subrange(1, bs.len() as int))
    }
}

/// The element-by-element reading of [`boxes_view`].
pub proof fn lemma_boxes_view(bs: Seq<LayoutBox>)
    ensures
        boxes_view(bs).len() == bs.len(),
        forall|i: int| 0 <= i < bs.len() ==> boxes_view(bs)[i] == box_view(#[trigger] bs[i]),
    decreases bs.len(),
{
    if bs.len() > 0 {
        let tail = bs.subrange(1, bs.len() as int);
        lemma_boxes_view(tail);
        assert forall|i: int| 0 <= i < bs.len() implies boxes_view(bs)[i] == box_view(
            #[trigger] bs[i],
        ) by {
            if i > 0 {
                assert(boxes_view(bs)[i] == boxes_view(tail)[i - 1]);
                assert(tail[i - 1] == bs[i]);
            }
        }
    }
}

/// Reading a list of sibling boxes extended by one more.
pub proof fn lemma_boxes_view_push(bs: Seq<LayoutBox>, b: LayoutBox)
    ensures
        boxes_view(bs.push(b)) == boxes_view(bs).push(box_view(b)),
{
    lemma_boxes_view(bs.push(b));
    lemma_boxes_view(bs);
    assert forall|i: int| 0 <= i < bs.len() + 1 implies boxes_view(bs.push(b))[i] == boxes_view(
        bs,
    ).push(box_view(b))[i] by {
        if i < bs.len() {
            assert(bs.push(b)[i] == bs[i]);
        } else {
            assert(bs.push(b)[i] == b);
        }
    }
    assert(boxes_view(bs.push(b)) =~= boxes_view(bs).push(box_view(b)));
}

/// Reading a concatenation of sibling lists.
pub proof fn lemma_boxes_view_concat(a: Seq<LayoutBox>, b: Seq<LayoutBox>)
    ensures
        boxes_view(a + b) == boxes_view(a) + boxes_view(b),
{
    lemma_boxes_view(a + b);
    lemma_boxes_view(a);
    lemma_boxes_view(b);
    assert forall|i: int| 0 <= i < a.len() + b.len() implies boxes_view(a + b)[i] == (boxes_view(a)
        + boxes_view(b))[i] by {
        if i < a.len() {
            assert((a + b)[i] == a[i]);
        } else {
            assert((a + b)[i] == b[i - a.len()]);
        }
    }
    assert(boxes_view(a + b) =~= boxes_view(a) + boxes_view(b));
}

impl DeepView for LayoutBox {
    type V = BoxV;

    open spec fn deep_view(&self) -> BoxV {
        box_view(*self)
    }
}

/// How many boxes a tree holds, the measure the expansion pass recurses
/// on.
pub open spec fn box_size(b: BoxV) -> nat
    decreases b, 1int,
{
    1 + boxes_size(b.children)
}

/// How many boxes a list of trees holds.
pub open spec fn boxes_size(bs: Seq<BoxV>) -> nat
    decreases bs, 0int,
{
    if bs.len() == 0 {
        0
    } else {
        box_size(bs[0]) + boxes_size(bs.subrange(1, bs.len() as int))
    }
}

/// A tree in a list is never larger than the whole list.
pub proof fn lemma_boxes_size_elem(bs: Seq<BoxV>, i: int)
    requires
        0 <= i < bs.len(),
    ensures
        box_size(bs[i]) <= boxes_size(bs),
    decreases bs.len(),
{
    if i > 0 {
        let tail = bs.subrange(1, bs.len() as int);
        lemma_boxes_size_elem(tail, i - 1);
        assert(tail[i - 1] == bs[i]);
    }
}

impl Clone for Content {
    /// A structural copy whose view is the same.
    fn clone(&self) -> (r: Content)
        ensures
            r.deep_view() == self.deep_view(),
    {
        Content { x: self.x, y: self.y, text: self.text.clone() }
    }
}

impl Clone for LayoutBox {
    /// A structural copy of the whole tree, with the same view.
    #[verifier::loop_isolation(false)]
    fn clone(&self) -> (r: LayoutBox)
        ensures
            r.deep_view() == self.deep_view(),
        decreases *self,
    {
        let n = self.children.len();
        let mut children: Vec<LayoutBox> = Vec::new();
        let mut i: usize = 0;
        while i < n
            invariant
                0 <= i <= n,
                n == self.children@.len(),
                children@.len() == i,
                forall|j: int| 0 <= j < i ==> (#[trigger] children@[j]).deep_view() == box_view(
                    self.children@[j],
                ),
            decreases n - i,
        {
            let child = self.children[i].clone();
            children.push(child);
            i = i + 1;
        }
        let content: Option<Content> = match &self.content {
            Some(c) => Some(c.clone()),
            None => None,
        };
        let r = LayoutBox {
            dimensions: self.dimensions,
            actual_dimensions: self.actual_dimensions,
            content,
            color: self.color,
            background_color: self.background_color,
            name: self.name.clone(),
            margin: self.margin,
            padding: self.padding,
            box_type: self.box_type,
            children,
        };
        proof {
            lemma_boxes_view(r.children@);
            lemma_boxes_view(self.children@);
            assert forall|j: int| 0 <= j < n implies boxes_view(r.children@)[j] == boxes_view(
                self.children@,
            )[j] by {
                assert(r.children@[j].deep_view() == box_view(self.children@[j]));
                assert(r.children@[j].deep_view() == box_view(r.children@[j]));
            }
            assert(boxes_view(r.children@) =~= boxes_view(self.children@));
            assert(r.deep_view() =~= self.deep_view());
        }
        r
    }
}

// ---------------------------------------------------------------------------
// Defaults
// ---------------------------------------------------------------------------

/// The view of the box every element starts from: black text on a white
/// background, block flow, zero geometry.
pub open spec fn default_box_v() -> BoxV {
    BoxV {
        dimensions: (Dimensions { x: 0, y: 0, width: 0, height: 0 }),
        actual_dimensions: (Dimensions { x: 0, y: 0, width: 0, height: 0 }),
        content: None,
        color: (Color { r: 0, g: 0, b: 0, a: 255 }),
        background_color: (Color { r: 255, g: 255, b: 255, a: 255 }),
        name: "default"@,
        margin: (Indentations { top: 0, right: 0, bottom: 0, left: 0 }),
        padding: (Indentations { top: 0, right: 0, bottom: 0, left: 0 }),
        box_type: BoxType::Block,
        children: Seq::empty(),
    }
}

impl Color {
    /// A color from its four channels.
    pub fn new(r: u8, g: u8, b: u8, a: u8) -> (c: Color)
        ensures
            c == (Color { r, g, b, a }),
    {
        Color { r, g, b, a }
    }
}

impl Default for Dimensions {
    /// The zero rectangle.
    fn default() -> (r: Dimensions)
        ensures
            r == (Dimensions { x: 0i16, y: 0i16, width: 0i16, height: 0i16 }),
    {
        Dimensions { x: 0, y: 0, width: 0, height: 0 }
    }
}

impl Default for Indentations {
    /// Zero insets.
    fn default() -> (r: Indentations)
        ensures
            r == (Indentations { top: 0i16, right: 0i16, bottom: 0i16, left: 0i16 }),
    {
        Indentations { top: 0, right: 0, bottom: 0, left: 0 }
    }
}

impl Default for Color {
    /// Transparent black.
    fn default() -> (r: Color)
        ensures
            r == (Color { r: 0u8, g: 0u8, b: 0u8, a: 0u8 }),
    {
        Color { r: 0, g: 0, b: 0, a: 0 }
    }
}

impl Default for Content {
    /// An empty text leaf at the origin.
    fn default() -> (r: Content)
        ensures
            r.deep_view() == (ContentV { x: 0i16, y: 0i16, text: Seq::<char>::empty() }),
    {
        Content { x: 0, y: 0, text: String::new() }
    }
}

impl Default for LayoutBox {
    /// The box every element starts from.
    fn default() -> (r: LayoutBox)
        ensures
            r.deep_view() == default_box_v(),
    {
        let r = LayoutBox {
            dimensions: Dimensions::default(),
            actual_dimensions: Dimensions::default(),
            content: None,
            color: Color::new(0, 0, 0, 255),
            background_color: Color::new(255, 255, 255, 255),
            name: String::from_str("default"),
            margin: Indentations::default(),
            padding: Indentations::default(),
            box_type: BoxType::Block,
            children: Vec::new(),
        };
        proof {
            assert(boxes_view(r.children@) =~= Seq::<BoxV>::empty());
            assert(r.deep_view() =~= default_box_v());
        }
        r
    }
}

// ---------------------------------------------------------------------------
// Property application
// ---------------------------------------------------------------------------

/// The color record a resolved stylesheet color paints with.
pub open spec fn spec_paint_color(c: crate::css::ColorV) -> Color {
    let (r, g, b) = crate::css::spec_rgb(c);
    Color { r, g, b, a: 255 }
}

/// What one resolved property does to a box under construction. Width and
/// height in pixels set the extent directly; in percent they resolve
/// against the parent's width (integer-truncating) or height. A value of
/// the wrong shape for width or height does nothing here; the layout
/// entry points rule it out.
pub open spec fn spec_apply_prop(
    name: PropertyName,
    value: PropertyValueV,
    b: BoxV,
    parent: BoxV,
) -> BoxV {
    match name {
        PropertyName::Color => match value {
            PropertyValueV::Color(c) => BoxV { color: spec_paint_color(c), ..b },
            _ => b,
        },
        PropertyName::BackgroundColor => match value {
            PropertyValueV::Color(c) => BoxV { background_color: spec_paint_color(c), ..b },
            _ => b,
        },
        PropertyName::Margin => match value {
            PropertyValueV::Length(Length::Px(px)) => BoxV {
                margin: (Indentations { top: px, right: px, bottom: px, left: px }),
                ..b
            },
            _ => b,
        },
        PropertyName::MarginTop => match value {
            PropertyValueV::Length(Length::Px(px)) => BoxV {
                margin: (Indentations { top: px, ..b.margin }),
                ..b
            },
            _ => b,
        },
        PropertyName::MarginRight => match value {
            PropertyValueV::Length(Length::Px(px)) => BoxV {
                margin: (Indentations { right: px, ..b.margin }),
                ..b
            },
            _ => b,
        },
        PropertyName::MarginBottom => match value {
            PropertyValueV::Length(Length::Px(px)) => BoxV {
                margin: (Indentations { bottom: px, ..b.margin }),
                ..b
            },
            _ => b,
        },
        PropertyName::MarginLeft => match value {
            PropertyValueV::Length(Length::Px(px)) => BoxV {
                margin: (Indentations { left: px, ..b.margin }),
                ..b
            },
            _ => b,
        },
        PropertyName::Padding => match value {
            PropertyValueV::Length(Length::Px(px)) => BoxV {
                padding: (Indentations { top: px, right: px, bottom: px, left: px }),
                ..b
            },
            _ => b,
        },
        PropertyName::PaddingTop => match value {
            PropertyValueV::Length(Length::Px(px)) => BoxV {
                padding: (Indentations { top: px, ..b.padding }),
                ..b
            },
            _ => b,
        },
        PropertyName::PaddingRight => match value {
            PropertyValueV::Length(Length::Px(px)) => BoxV {
                padding: (Indentations { right: px, ..b.padding }),
                ..b
            },
            _ => b,
        },
        PropertyName::PaddingBottom => match value {
            PropertyValueV::Length(Length::Px(px)) => BoxV {
                padding: (Indentations { bottom: px, ..b.padding }),
                ..b
            },
            _ => b,
        },
        PropertyName::PaddingLeft => match value {
            PropertyValueV::Length(Length::Px(px)) => BoxV {
                padding: (Indentations { left: px, ..b.padding }),
                ..b
            },
            _ => b,
        },
        PropertyName::Display => match value {
            PropertyValueV::Display(d) => BoxV {
                box_type: match d {
                    DisplayType::Block => BoxType::Block,
                    DisplayType::Inline => BoxType::Inline,
                    _ => BoxType::Block,
                },
                ..b
            },
            _ => b,
        },
        PropertyName::Width => match value {
            PropertyValueV::Length(Length::Px(px)) => BoxV {
                dimensions: (Dimensions { width: px, ..b.dimensions }),
                ..b
            },
            PropertyValueV::Length(Length::Percent(p)) => BoxV {
                dimensions: (Dimensions {
                    width: i16_specs::wrapping_mul(
                        parent.actual_dimensions.width,
                        ((p as int) / 100) as i16,
                    ),
                    ..b.dimensions
                }),
                ..b
            },
            _ => b,
        },
        PropertyName::Height => match value {
            PropertyValueV::Length(Length::Px(px)) => BoxV {
                dimensions: (Dimensions { height: px, ..b.dimensions }),
                ..b
            },
            PropertyValueV::Length(Length::Percent(p)) => BoxV {
                dimensions: (Dimensions {
                    height: i16_specs::wrapping_mul(parent.dimensions.height, p as i16),
                    ..b.dimensions
                }),
                ..b
            },
            _ => b,
        },
        PropertyName::Other => b,
    }
}

/// Every resolved property applied in the style map's order.
pub open spec fn spec_apply_props(
    entries: Seq<(PropertyName, PropertyValueV)>,
    b: BoxV,
    parent: BoxV,
) -> BoxV
    decreases entries.len(),
{
    if entries.len() == 0 {
        b
    } else {
        spec_apply_props(
            entries.subrange(1, entries.len() as int),
            spec_apply_prop(entries[0].0, entries[0].1, b, parent),
            parent,
        )
    }
}

/// One step of the box-flow bookkeeping: the box grows by its vertical
/// padding, takes its position from the parent's current offsets, and
/// pushes the offset of its flow direction forward by its consumed
/// extent.
pub open spec fn spec_calc_position(b: BoxV, parent: BoxV, v: i16, h: i16) -> (BoxV, i16, i16) {
    let hgt = i16_specs::wrapping_add(
        b.dimensions.height,
        i16_specs::wrapping_add(b.padding.top, b.padding.bottom),
    );
    if b.box_type == BoxType::Block {
        let b2 = BoxV {
            dimensions: (Dimensions {
                height: hgt,
                y: i16_specs::wrapping_add(v, parent.actual_dimensions.y),
                x: parent.actual_dimensions.x,
                ..b.dimensions
            }),
            ..b
        };
        let v2 = i16_specs::wrapping_add(
            v,
            i16_specs::wrapping_add(
                hgt,
                i16_specs::wrapping_add(b.margin.top, b.margin.bottom),
            ),
        );
        (b2, v2, h)
    } else {
        let b2 = BoxV {
            dimensions: (Dimensions {
                height: hgt,
                y: parent.actual_dimensions.y,
                x: i16_specs::wrapping_add(h, parent.actual_dimensions.x),
                ..b.dimensions
            }),
            ..b
        };
        let h2 = i16_specs::wrapping_add(
            h,
            i16_specs::wrapping_add(
                b.dimensions.width,
                i16_specs::wrapping_add(b.margin.left, b.margin.right),
            ),
        );
        (b2, v, h2)
    }
}

/// The box's final geometry: shifted by its own margin and by the
/// parent's padding (padding is consumed by the parent wrapping its
/// child), narrowed by its margins and twice the parent's right padding.
pub open spec fn spec_calc_actual(b: BoxV, parent: BoxV) -> BoxV {
    BoxV {
        actual_dimensions: (Dimensions {
            x: i16_specs::wrapping_add(
                i16_specs::wrapping_add(b.dimensions.x, b.margin.left),
                parent.padding.left,
            ),
            y: i16_specs::wrapping_add(
                i16_specs::wrapping_add(b.dimensions.y, b.margin.top),
                parent.padding.top,
            ),
            width: i16_specs::wrapping_sub(
                i16_specs::wrapping_sub(
                    i16_specs::wrapping_sub(b.dimensions.width, b.margin.left),
                    b.margin.right,
                ),
                i16_specs::wrapping_mul(parent.padding.right, 2),
            ),
            height: b.dimensions.height,
        }),
        ..b
    }
}

/// A text leaf placed at the owning box's padding-adjusted corner; the
/// owner grows by one line height.
pub open spec fn spec_set_content(b: BoxV, text: Seq<char>) -> BoxV {
    BoxV {
        content: Some(
            ContentV {
                x: i16_specs::wrapping_add(b.actual_dimensions.x, b.padding.left),
                y: i16_specs::wrapping_add(b.actual_dimensions.y, b.padding.top),
                text,
            },
        ),
        actual_dimensions: (Dimensions {
            height: i16_specs::wrapping_add(b.actual_dimensions.height, 20),
            ..b.actual_dimensions
        }),
        ..b
    }
}

/// One box built from a node's resolved styles against its parent: the
/// defaults, then every property, the tag name, the flow bookkeeping and
/// the final geometry.
pub open spec fn spec_build_box(
    styles: Seq<(PropertyName, PropertyValueV)>,
    tag: Seq<char>,
    parent: BoxV,
    v: i16,
    h: i16,
) -> (BoxV, i16, i16) {
    let b1 = spec_apply_props(styles, default_box_v(), parent);
    let b2 = BoxV { name: tag, ..b1 };
    let (b3, v2, h2) = spec_calc_position(b2, parent, v, h);
    (spec_calc_actual(b3, parent), v2, h2)
}

/// The children of one box, built in document order. An element child
/// becomes a box whose own children are built against it; a text child
/// becomes the owner's content leaf; a comment leaves nothing. The owner's
/// running offsets thread through the walk.
pub open spec fn spec_build_kids(ns: Seq<NodeV>, owner: BoxV, v: i16, h: i16) -> (Seq<BoxV>, BoxV)
    decreases ns, 0int,
{
    if ns.len() == 0 {
        (Seq::empty(), owner)
    } else {
        let node = ns[0];
        let rest = ns.subrange(1, ns.len() as int);
        match node.node_type {
            NodeTypeV::Element(e) => {
                let (b1, v2, h2) = spec_build_box(node.styles, e.tag_name, owner, v, h);
                let (cs, b2) = spec_build_kids(node.children, b1, 0, 0);
                let b3 = BoxV { children: cs, ..b2 };
                let (bs, owner2) = spec_build_kids(rest, owner, v2, h2);
                (seq![b3] + bs, owner2)
            },
            NodeTypeV::Text(text) => {
                let owner1 = spec_set_content(owner, text);
                spec_build_kids(rest, owner1, v, h)
            },
            NodeTypeV::Comment(_) => spec_build_kids(rest, owner, v, h),
        }
    }
}

/// The root of the layout: a base page-wide box, the body box built
/// against it and renamed after the root element, its children, and the
/// expansion pass for text-bearing blocks.
pub open spec fn spec_build_layout_tree(n: NodeV) -> Seq<BoxV>
    recommends
        n.node_type is Element,
{
    let base = BoxV {
        dimensions: (Dimensions { x: 0, y: 0, width: crate::render::WIDTH as i16, height: 0 }),
        actual_dimensions: (Dimensions {
            x: 0,
            y: 0,
            width: crate::render::WIDTH as i16,
            height: 0,
        }),
        ..default_box_v()
    };
    let (body0, v2, h2) = spec_build_box(n.styles, Seq::empty(), base, 0, 0);
    let tag = match n.node_type {
        NodeTypeV::Element(e) => e.tag_name,
        _ => Seq::empty(),
    };
    let body1 = BoxV { name: tag, ..body0 };
    let (cs, body2) = spec_build_kids(n.children, body1, 0, 0);
    let body3 = BoxV { children: cs, ..body2 };
    seq![spec_expand(body3)]
}

// ---------------------------------------------------------------------------
// The expansion pass for text-bearing boxes
// ---------------------------------------------------------------------------

/// The running count of text-bearing children among the first `j`.
pub open spec fn spec_content_count(cs: Seq<BoxV>, j: int) -> i16
    decreases j,
{
    if j <= 0 {
        0
    } else if cs[j - 1].content is Some {
        i16_specs::wrapping_add(spec_content_count(cs, j - 1), 1)
    } else {
        spec_content_count(cs, j - 1)
    }
}

/// A child shifted down by the lines its text-bearing elder siblings
/// consumed.
pub open spec fn spec_shift(c: BoxV, shift: i16) -> BoxV {
    BoxV {
        actual_dimensions: (Dimensions {
            y: i16_specs::wrapping_add(c.actual_dimensions.y, shift),
            ..c.actual_dimensions
        }),
        content: match c.content {
            Some(ct) => Some(ContentV { y: i16_specs::wrapping_add(ct.y, shift), ..ct }),
            None => None,
        },
        ..c
    }
}

/// The parent's height grown by every child's extent, in order.
pub open spec fn spec_heights(cs: Seq<BoxV>, h: i16) -> i16
    decreases cs.len(),
{
    if cs.len() == 0 {
        h
    } else {
        spec_heights(
            cs.subrange(1, cs.len() as int),
            i16_specs::wrapping_add(h, cs[0].actual_dimensions.height),
        )
    }
}

/// Every child shifted by its elder siblings' line count and expanded in
/// turn; `count` counts the text-bearing children already passed.
pub open spec fn spec_expand_kids(cs: Seq<BoxV>, count: i16) -> Seq<BoxV>
    decreases boxes_size(cs), 1int,
    via spec_expand_kids_dec
{
    if cs.len() == 0 {
        Seq::empty()
    } else {
        let shift = i16_specs::wrapping_mul(20, count);
        let c1 = spec_shift(cs[0], shift);
        let count2 = if cs[0].content is Some {
            i16_specs::wrapping_add(count, 1)
        } else {
            count
        };
        seq![spec_expand(c1)] + spec_expand_kids(cs.subrange(1, cs.len() as int), count2)
    }
}

#[via_fn]
proof fn spec_expand_kids_dec(cs: Seq<BoxV>, count: i16) {
    if cs.len() > 0 {
        let shift = i16_specs::wrapping_mul(20, count);
        let c1 = spec_shift(cs[0], shift);
        assert(box_size(c1) == box_size(cs[0]));
        lemma_boxes_size_elem(cs, 0);
        assert(boxes_size(cs) == box_size(cs[0]) + boxes_size(cs.subrange(1, cs.len() as int)));
        assert(box_size(cs[0]) >= 1);
    }
}

/// The expansion pass: each text-bearing child pushes its younger
/// siblings down by one line height, and every child's extent is folded
/// into the parent's height before the child expands its own subtree.
pub open spec fn spec_expand(b: BoxV) -> BoxV
    decreases box_size(b), 0int,
    via spec_expand_dec
{
    BoxV {
        actual_dimensions: (Dimensions {
            height: spec_heights(b.children, b.actual_dimensions.height),
            ..b.actual_dimensions
        }),
        children: spec_expand_kids(b.children, 0),
        ..b
    }
}

#[via_fn]
proof fn spec_expand_dec(b: BoxV) {
    assert(box_size(b) == 1 + boxes_size(b.children));
}

// ---------------------------------------------------------------------------
// Executable layout
// ---------------------------------------------------------------------------

/// Every width or height the map binds is a length; the shape the layout
/// entry point expects.
pub open spec fn styles_layout_ready(m: Seq<(PropertyName, PropertyValueV)>) -> bool {
    forall|i: int|
        0 <= i < m.len() ==> (((#[trigger] m[i]).0 == PropertyName::Width || m[i].0
            == PropertyName::Height) ==> m[i].1 is Length)
}

/// Every node in the tree binds width and height only to lengths.
pub open spec fn layout_ready(n: NodeV) -> bool
    decreases n,
{
    styles_layout_ready(n.styles) && forall|i: int|
        0 <= i < n.children.len() ==> layout_ready(#[trigger] n.children[i])
}

/// Decides [`layout_ready`] for a styled tree, so a caller can test the
/// layout entry point's precondition.
#[verifier::loop_isolation(false)]
pub fn is_layout_ready(node: &Node) -> (r: bool)
    ensures
        r == layout_ready(node.deep_view()),
    decreases *node,
{
    let n = node.styles.len();
    let mut i: usize = 0;
    while i < n
        invariant
            0 <= i <= n,
            n == node.styles.deep_view().len(),
            forall|j: int|
                0 <= j < i ==> (((#[trigger] node.styles.deep_view()[j]).0 == PropertyName::Width
                    || node.styles.deep_view()[j].0 == PropertyName::Height)
                    ==> node.styles.deep_view()[j].1 is Length),
        decreases n - i,
    {
        let entry = node.styles.entry_at(i);
        let bad = (entry.0 == PropertyName::Width || entry.0 == PropertyName::Height) && !(
        match &entry.1 {
            PropertyValue::Length(_) => true,
            _ => false,
        });
        if bad {
            proof {
                assert(!styles_layout_ready(node.deep_view().styles));
            }
            return false;
        }
        i = i + 1;
    }
    let m = node.children.len();
    let mut k: usize = 0;
    while k < m
        invariant
            0 <= k <= m,
            m == node.children@.len(),
            styles_layout_ready(node.deep_view().styles),
            forall|j: int| 0 <= j < k ==> layout_ready(#[trigger] node.deep_view().children[j]),
        decreases m - k,
    {
        proof {
            crate::dom::lemma_nodes_view(node.children@);
        }
        if !is_layout_ready(&node.children[k]) {
            proof {
                assert(node.deep_view().children[k as int] == node_view(node.children@[k as int]));
                assert(!layout_ready(node.deep_view()));
            }
            return false;
        }
        k = k + 1;
    }
    proof {
        crate::dom::lemma_nodes_view(node.children@);
        assert(node.deep_view().children.len() == m);
        assert(layout_ready(node.deep_view()));
    }
    true
}

impl LayoutBox {
    /// Applies one resolved property to a box under construction.
    fn apply_property(&mut self, parent: &LayoutBox, name: PropertyName, value: &PropertyValue)
        ensures
            box_view(*final(self)) == spec_apply_prop(
                name,
                value.deep_view(),
                box_view(*old(self)),
                box_view(*parent),
            ),
    {
        match name {
            PropertyName::Color => {
                if let PropertyValue::Color(c) = value {
                    let rgb = c.get_rgb();
                    self.color = Color::new(rgb.0, rgb.1, rgb.2, 255);
                }
            },
            PropertyName::BackgroundColor => {
                if let PropertyValue::Color(c) = value {
                    let rgb = c.get_rgb();
                    self.background_color = Color::new(rgb.0, rgb.1, rgb.2, 255);
                }
            },
            PropertyName::Margin => {
                if let PropertyValue::Length(Length::Px(px)) = value {
                    self.margin = Indentations { top: *px, right: *px, bottom: *px, left: *px };
                }
            },
            PropertyName::MarginTop => {
                if let PropertyValue::Length(Length::Px(px)) = value {
                    self.margin.top = *px;
                }
            },
            PropertyName::MarginRight => {
                if let PropertyValue::Length(Length::Px(px)) = value {
                    self.margin.right = *px;
                }
            },
            PropertyName::MarginBottom => {
                if let PropertyValue::Length(Length::Px(px)) = value {
                    self.margin.bottom = *px;
                }
            },
            PropertyName::MarginLeft => {
                if let PropertyValue::Length(Length::Px(px)) = value {
                    self.margin.left = *px;
                }
            },
            PropertyName::Padding => {
                if let PropertyValue::Length(Length::Px(px)) = value {
                    self.padding = Indentations { top: *px, right: *px, bottom: *px, left: *px };
                }
            },
            PropertyName::PaddingTop => {
                if let PropertyValue::Length(Length::Px(px)) = value {
                    self.padding.top = *px;
                }
            },
            PropertyName::PaddingRight => {
                if let PropertyValue::Length(Length::Px(px)) = value {
                    self.padding.right = *px;
                }
            },
            PropertyName::PaddingBottom => {
                if let PropertyValue::Length(Length::Px(px)) = value {
                    self.padding.bottom = *px;
                }
            },
            PropertyName::PaddingLeft => {
                if let PropertyValue::Length(Length::Px(px)) = value {
                    self.padding.left = *px;
                }
            },
            PropertyName::Display => {
                if let PropertyValue::Display(display) = value {
                    self.box_type = match display {
                        DisplayType::Block => BoxType::Block,
                        DisplayType::Inline => BoxType::Inline,
                        _ => BoxType::Block,
                    };
                }
            },
            PropertyName::Width => {
                match value {
                    PropertyValue::Length(Length::Px(px)) => {
                        self.dimensions.width = *px;
                    },
                    PropertyValue::Length(Length::Percent(percent)) => {
                        let q: i16 = (*percent / 100) as i16;
                        self.dimensions.width = parent.actual_dimensions.width.wrapping_mul(q);
                    },
                    _ => {},
                }
            },
            PropertyName::Height => {
                match value {
                    PropertyValue::Length(Length::Px(px)) => {
                        self.dimensions.height = *px;
                    },
                    PropertyValue::Length(Length::Percent(percent)) => {
                        self.dimensions.height = parent.dimensions.height.wrapping_mul(
                            *percent as i16,
                        );
                    },
                    _ => {},
                }
            },
            PropertyName::Other => {},
        }
    }

    /// The flow bookkeeping: vertical padding grows the box, the parent's
    /// running offsets place it, and its consumed extent pushes the offset
    /// of its flow direction forward.
    fn calculate_position(
        &mut self,
        parent: &LayoutBox,
        v_elements: &mut i16,
        h_elements: &mut i16,
        element_size: usize,
    )
        ensures
            (box_view(*final(self)), *final(v_elements), *final(h_elements)) == spec_calc_position(
                box_view(*old(self)),
                box_view(*parent),
                *old(v_elements),
                *old(h_elements),
            ),
    {
        let hgt = self.dimensions.height.wrapping_add(
            self.padding.top.wrapping_add(self.padding.bottom),
        );
        self.dimensions.height = hgt;
        if self.box_type == BoxType::Block {
            self.dimensions.y = (*v_elements).wrapping_add(parent.actual_dimensions.y);
            self.dimensions.x = parent.actual_dimensions.x;
            *v_elements = (*v_elements).wrapping_add(
                hgt.wrapping_add(self.margin.top.wrapping_add(self.margin.bottom)),
            );
        } else {
            self.dimensions.y = parent.actual_dimensions.y;
            self.dimensions.x = (*h_elements).wrapping_add(parent.actual_dimensions.x);
            *h_elements = (*h_elements).wrapping_add(
                self.dimensions.width.wrapping_add(
                    self.margin.left.wrapping_add(self.margin.right),
                ),
            );
        }
    }

    /// The final geometry: shifted by the box's own margin and the
    /// parent's padding, narrowed by margins and twice the parent's right
    /// padding.
    fn calculate_actual_dimensions(&mut self, parent: &LayoutBox)
        ensures
            box_view(*final(self)) == spec_calc_actual(box_view(*old(self)), box_view(*parent)),
    {
        self.actual_dimensions.x = self.dimensions.x.wrapping_add(self.margin.left).wrapping_add(
            parent.padding.left,
        );
        self.actual_dimensions.y = self.dimensions.y.wrapping_add(self.margin.top).wrapping_add(
            parent.padding.top,
        );
        self.actual_dimensions.width = self.dimensions.width.wrapping_sub(
            self.margin.left,
        ).wrapping_sub(self.margin.right).wrapping_sub(parent.padding.right.wrapping_mul(2));
        self.actual_dimensions.height = self.dimensions.height;
    }

    /// Places a text leaf at this box's padding-adjusted corner and grows
    /// the box by one line height.
    fn set_content(&mut self, text: &String)
        ensures
            box_view(*final(self)) == spec_set_content(box_view(*old(self)), text@),
    {
        let content = Content {
            x: self.actual_dimensions.x.wrapping_add(self.padding.left),
            y: self.actual_dimensions.y.wrapping_add(self.padding.top),
            text: text.clone(),
        };
        self.actual_dimensions.height = self.actual_dimensions.height.wrapping_add(20);
        self.content = Some(content);
    }

    /// One box from a node's resolved styles: defaults, every property in
    /// map order, the tag name, then the flow bookkeeping against the
    /// parent.
    #[verifier::loop_isolation(false)]
    fn build_box(
        element: &Node,
        parent: &LayoutBox,
        v_elements: &mut i16,
        h_elements: &mut i16,
        element_data: &ElementData,
        element_number: usize,
    ) -> (r: LayoutBox)
        ensures
            (box_view(r), *final(v_elements), *final(h_elements)) == spec_build_box(
                element.deep_view().styles,
                element_data.deep_view().tag_name,
                box_view(*parent),
                *old(v_elements),
                *old(h_elements),
            ),
    {
        let ghost styles_v = element.styles.deep_view();
        let ghost pv = box_view(*parent);
        let mut box_ = LayoutBox::default();
        let n = element.styles.len();
        proof {
            assert(styles_v.subrange(0, n as int) =~= styles_v);
        }
        let mut i: usize = 0;
        while i < n
            invariant
                0 <= i <= n,
                n == styles_v.len(),
                *v_elements == *old(v_elements),
                *h_elements == *old(h_elements),
                spec_apply_props(styles_v, default_box_v(), pv) == spec_apply_props(
                    styles_v.subrange(i as int, n as int),
                    box_view(box_),
                    pv,
                ),
            decreases n - i,
        {
            proof {
                assert(styles_v.subrange(i as int, n as int)[0] == styles_v[i as int]);
                assert(styles_v.subrange(i as int, n as int).subrange(
                    1,
                    styles_v.subrange(i as int, n as int).len() as int,
                ) =~= styles_v.subrange(i as int + 1, n as int));
            }
            let entry = element.styles.entry_at(i);
            box_.apply_property(parent, entry.0, &entry.1);
            i = i + 1;
        }
        proof {
            assert(styles_v.subrange(n as int, n as int) =~= Seq::<(
                PropertyName,
                PropertyValueV,
            )>::empty());
        }
        box_.name = element_data.tag_name.clone();
        box_.calculate_position(parent, v_elements, h_elements, element_number);
        box_.calculate_actual_dimensions(parent);
        box_
    }

    /// Builds the boxes of a node list against their owning box, in
    /// document order; text children become the owner's content leaf.
    #[verifier::loop_isolation(false)]
    fn build_layout_tree_helper(
        nodes: &Vec<Node>,
        parent: &mut LayoutBox,
        element_number: usize,
    ) -> (r: Vec<LayoutBox>)
        ensures
            (boxes_view(r@), box_view(*final(parent))) == spec_build_kids(
                nodes_view(nodes@),
                box_view(*old(parent)),
                0,
                0,
            ),
        decreases nodes@,
    {
        let ghost ns = nodes_view(nodes@);
        let ghost goal = spec_build_kids(ns, box_view(*old(parent)), 0, 0);
        let mut boxes: Vec<LayoutBox> = Vec::new();
        let mut v_elements: i16 = 0;
        let mut h_elements: i16 = 0;
        let n = nodes.len();
        proof {
            crate::dom::lemma_nodes_view(nodes@);
            assert(boxes_view(boxes@) =~= Seq::<BoxV>::empty());
            assert(ns.subrange(0, n as int) =~= ns);
        }
        let mut i: usize = 0;
        while i < n
            invariant
                0 <= i <= n,
                n == nodes@.len(),
                ns == nodes_view(nodes@),
                ns.len() == n,
                forall|j: int| 0 <= j < n ==> ns[j] == node_view(#[trigger] nodes@[j]),
                goal.0 == boxes_view(boxes@) + spec_build_kids(
                    ns.subrange(i as int, n as int),
                    box_view(*parent),
                    v_elements,
                    h_elements,
                ).0,
                goal.1 == spec_build_kids(
                    ns.subrange(i as int, n as int),
                    box_view(*parent),
                    v_elements,
                    h_elements,
                ).1,
            decreases n - i,
        {
            proof {
                assert(ns.subrange(i as int, n as int)[0] == ns[i as int]);
                assert(ns.subrange(i as int, n as int).subrange(
                    1,
                    ns.subrange(i as int, n as int).len() as int,
                ) =~= ns.subrange(i as int + 1, n as int));
            }
            let ghost boxes1 = boxes@;
            let node = &nodes[i];
            match &node.node_type {
                NodeType::Element(element) => {
                    proof {
                        assert(ns[i as int].node_type == NodeTypeV::Element(element.deep_view()));
                        assert(ns[i as int].styles == node.styles.deep_view());
                    }
                    let mut box_ = LayoutBox::build_box(
                        node,
                        parent,
                        &mut v_elements,
                        &mut h_elements,
                        element,
                        i,
                    );
                    proof {
                        assert(decreases_to!(nodes@ => nodes@[i as int]));
                        assert(decreases_to!(nodes@[i as int] => nodes@[i as int].children));
                        assert(decreases_to!(nodes@[i as int].children => nodes@[i as int].children@));
                        assert(ns[i as int].children == nodes_view(nodes@[i as int].children@));
                    }
                    let kids = LayoutBox::build_layout_tree_helper(
                        &node.children,
                        &mut box_,
                        element_number.wrapping_add(1),
                    );
                    let ghost b2 = box_view(box_);
                    box_.children = kids;
                    proof {
                        assert(box_view(box_) =~= (BoxV {
                            children: boxes_view(box_.children@),
                            ..b2
                        }));
                    }
                    boxes.push(box_);
                    proof {
                        lemma_boxes_view_push(boxes1, box_);
                        assert(boxes_view(boxes1) + (seq![box_view(box_)] + spec_build_kids(
                            ns.subrange(i as int + 1, n as int),
                            box_view(*parent),
                            v_elements,
                            h_elements,
                        ).0) =~= boxes_view(boxes@) + spec_build_kids(
                            ns.subrange(i as int + 1, n as int),
                            box_view(*parent),
                            v_elements,
                            h_elements,
                        ).0);
                    }
                },
                NodeType::Text(text) => {
                    proof {
                        assert(ns[i as int].node_type == NodeTypeV::Text(text@));
                    }
                    parent.set_content(text);
                },
                NodeType::Comment(_) => {
                    proof {
                        assert(ns[i as int].node_type is Comment);
                    }
                },
            }
            i = i + 1;
        }
        proof {
            assert(ns.subrange(n as int, n as int) =~= Seq::<NodeV>::empty());
            assert(boxes_view(boxes@) + Seq::<BoxV>::empty() =~= boxes_view(boxes@));
        }
        boxes
    }

    /// The expansion pass over this box's subtree.
    pub fn expand_blocks_that_have_text(&mut self)
        ensures
            box_view(*final(self)) == spec_expand(box_view(*old(self))),
    {
        LayoutBox::expand_blocks_that_have_text_rec(self);
    }

    /// Each text-bearing child pushes its younger siblings one line down;
    /// every child's extent folds into this box's height; then each child
    /// expands its own subtree.
    #[verifier::loop_isolation(false)]
    fn expand_blocks_that_have_text_rec(parent: &mut LayoutBox)
        ensures
            box_view(*final(parent)) == spec_expand(box_view(*old(parent))),
        decreases box_size(box_view(*old(parent))),
    {
        let ghost b0 = box_view(*old(parent));
        let mut pending: Vec<LayoutBox> = Vec::new();
        core::mem::swap(&mut pending, &mut parent.children);
        let ghost csv = boxes_view(pending@);
        proof {
            assert(b0.children == csv);
            assert(boxes_view(parent.children@) =~= Seq::<BoxV>::empty());
            assert(box_size(b0) == 1 + boxes_size(csv));
        }
        let mut count: i16 = 0;
        while pending.len() > 0
            invariant
                spec_expand_kids(csv, 0) == boxes_view(parent.children@) + spec_expand_kids(
                    boxes_view(pending@),
                    count,
                ),
                spec_heights(csv, b0.actual_dimensions.height) == spec_heights(
                    boxes_view(pending@),
                    parent.actual_dimensions.height,
                ),
                boxes_size(boxes_view(pending@)) <= boxes_size(csv),
                box_view(*parent) == (BoxV {
                    children: boxes_view(parent.children@),
                    actual_dimensions: (Dimensions {
                        height: parent.actual_dimensions.height,
                        ..b0.actual_dimensions
                    }),
                    ..b0
                }),
            decreases pending@.len(),
        {
            let ghost prevp = pending@;
            let ghost prev = boxes_view(prevp);
            let ghost count1 = count;
            let mut c = pending.remove(0);
            proof {
                lemma_boxes_view(prevp);
                lemma_boxes_view(pending@);
                assert(pending@ =~= prevp.subrange(1, prevp.len() as int));
                assert forall|j: int| 0 <= j < pending@.len() implies boxes_view(pending@)[j]
                    == prev.subrange(1, prev.len() as int)[j] by {
                    assert(pending@[j] == prevp[j + 1]);
                }
                assert(boxes_view(pending@) =~= prev.subrange(1, prev.len() as int));
                assert(box_view(c) == prev[0]);
            }
            let shift: i16 = (20 as i16).wrapping_mul(count);
            c.actual_dimensions.y = c.actual_dimensions.y.wrapping_add(shift);
            let had_content = match &c.content {
                Some(_) => true,
                None => false,
            };
            let mut taken: Option<Content> = None;
            core::mem::swap(&mut taken, &mut c.content);
            match taken {
                Some(mut ct) => {
                    ct.y = ct.y.wrapping_add(shift);
                    c.content = Some(ct);
                },
                None => {},
            }
            proof {
                assert(box_view(c) =~= spec_shift(prev[0], shift));
                assert(box_size(box_view(c)) == box_size(prev[0]));
                lemma_boxes_size_elem(prev, 0);
            }
            let ch = c.actual_dimensions.height;
            parent.actual_dimensions.height = parent.actual_dimensions.height.wrapping_add(ch);
            LayoutBox::expand_blocks_that_have_text_rec(&mut c);
            if had_content {
                count = count.wrapping_add(1);
            }
            let ghost kids1 = parent.children@;
            parent.children.push(c);
            proof {
                lemma_boxes_view_push(kids1, c);
                assert(prev[0].actual_dimensions.height == spec_shift(
                    prev[0],
                    shift,
                ).actual_dimensions.height);
                assert(boxes_view(kids1) + (seq![spec_expand(spec_shift(prev[0], shift))]
                    + spec_expand_kids(boxes_view(pending@), count)) =~= boxes_view(
                    parent.children@,
                ) + spec_expand_kids(boxes_view(pending@), count));
                assert(boxes_size(prev) == box_size(prev[0]) + boxes_size(boxes_view(pending@)));
            }
        }
        proof {
            assert(boxes_view(pending@) =~= Seq::<BoxV>::empty());
            assert(spec_expand_kids(boxes_view(pending@), count) =~= Seq::<BoxV>::empty());
            assert(boxes_view(parent.children@) + Seq::<BoxV>::empty() =~= boxes_view(
                parent.children@,
            ));
            assert(box_view(*parent) =~= spec_expand(b0));
        }
    }

    /// Builds the positioned box tree of a styled document: a page-wide
    /// base box, the root element's box against it, its children, and the
    /// expansion pass. The root node must be an element whose tree binds
    /// width and height only to lengths.
    pub fn build_layout_tree(node: &Node) -> (r: Vec<LayoutBox>)
        requires
            node.deep_view().node_type is Element,
            layout_ready(node.deep_view()),
        ensures
            boxes_view(r@) == spec_build_layout_tree(node.deep_view()),
    {
        let mut base = LayoutBox::default();
        base.dimensions.width = crate::render::WIDTH as i16;
        base.actual_dimensions.width = crate::render::WIDTH as i16;
        let mut v_elements: i16 = 0;
        let mut h_elements: i16 = 0;
        let default_elem = ElementData::default();
        let mut body = LayoutBox::build_box(
            node,
            &base,
            &mut v_elements,
            &mut h_elements,
            &default_elem,
            0,
        );
        body.name = match &node.node_type {
            NodeType::Element(element_data) => element_data.tag_name.clone(),
            _ => String::new(),
        };
        let ghost body1 = box_view(body);
        let kids = LayoutBox::build_layout_tree_helper(&node.children, &mut body, 0);
        let ghost body2 = box_view(body);
        body.children = kids;
        proof {
            assert(node.deep_view().children == nodes_view(node.children@));
            assert(box_view(body) =~= (BoxV { children: boxes_view(body.children@), ..body2 }));
        }
        body.expand_blocks_that_have_text();
        let mut out: Vec<LayoutBox> = Vec::new();
        out.push(body);
        proof {
            lemma_boxes_view_push(Seq::<LayoutBox>::empty(), body);
            assert(boxes_view(Seq::<LayoutBox>::empty()) =~= Seq::<BoxV>::empty());
            assert(boxes_view(out@) =~= seq![box_view(body)]);
            assert(boxes_view(out@) =~= spec_build_layout_tree(node.deep_view()));
        }
        out
    }
}

} // verus!
