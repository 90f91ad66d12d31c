//! The stylesheet data model: rules, selectors, property names and values,
//! lengths and colors, and the ordered property map the cascade fills.

use vstd::prelude::*;
use crate::text::{spec_dec, spec_dec_int, str_eq, u32_to_dec, i16_to_dec};

verus! {

/// An ordered list of rules. Order is significant: during the cascade a
/// later matching rule overrides an earlier one.
#[derive(Debug, Clone, PartialEq)]
pub struct Stylesheet {
    pub rules: Vec<Rule>,
}

/// One selector with the properties it sets.
#[derive(Debug, Clone, PartialEq)]
pub struct Rule {
    pub selector: Selector,
    pub properties: StyleMap,
}

/// At most one of a tag name, an id, or a class name; no combinators.
#[derive(Debug, Clone, PartialEq, Eq)]
pub struct Selector {
    pub tag_name: Option<String>,
    pub id: Option<String>,
    pub class: Option<String>,
}

/// The closed set of property names the pipeline knows; anything else is
/// kept under `Other`.
#[derive(Debug, Clone, Copy, PartialEq, Eq, Structural)]
pub enum PropertyName {
    Color,
    BackgroundColor,
    Width,
    Height,
    Margin,
    MarginTop,
    MarginBottom,
    MarginLeft,
    MarginRight,
    Padding,
    PaddingTop,
    PaddingBottom,
    PaddingLeft,
    PaddingRight,
    Display,
    Other,
}

/// The flow mode a `display` declaration selects.
#[derive(Debug, Clone, Copy, PartialEq, Eq, Structural)]
pub enum DisplayType {
    Block,
    Inline,
    InlineBlock,
    NoDisplay,
}

/// A property's parsed value.
#[derive(Debug, Clone, PartialEq, Eq)]
pub enum PropertyValue {
    Color(Color),
    Length(Length),
    Display(DisplayType),
    Other(String),
}

/// A color, as written in the stylesheet: an `rgb(...)` triple, a bare
/// keyword name, or a 24-bit hex literal.
#[derive(Debug, Clone, PartialEq, Eq)]
pub enum Color {
    Rgb(u8, u8, u8),
    Named(String),
    Hex(u32),
}

/// A length: pixels, or a percentage between 0 and 100.
#[derive(Debug, Clone, Copy, PartialEq, Eq, Structural)]
pub enum Length {
    Px(i16),
    Percent(u8),
}

/// Why a declaration's value was rejected.
#[derive(Debug, Clone, Copy, PartialEq, Eq, Structural)]
pub enum CssError {
    /// A percentage above 100.
    PercentOutOfRange,
    /// A length whose numeric part cannot be read, or that has no room
    /// for a unit.
    BadNumber,
    /// A `#`-prefixed color whose digits cannot be read as hexadecimal.
    BadHexColor,
}

// ---------------------------------------------------------------------------
// Mathematical views
// ---------------------------------------------------------------------------

/// View of [`Color`].
#[verifier::ext_equal]
pub enum ColorV {
    Rgb(u8, u8, u8),
    Named(Seq<char>),
    Hex(u32),
}

/// View of [`PropertyValue`].
#[verifier::ext_equal]
pub enum PropertyValueV {
    Color(ColorV),
    Length(Length),
    Display(DisplayType),
    Other(Seq<char>),
}

/// View of [`Selector`].
#[verifier::ext_equal]
pub struct SelectorV {
    pub tag_name: Option<Seq<char>>,
    pub id: Option<Seq<char>>,
    pub class: Option<Seq<char>>,
}

/// View of [`Rule`].
#[verifier::ext_equal]
pub struct RuleV {
    pub selector: SelectorV,
    pub properties: Seq<(PropertyName, PropertyValueV)>,
}

impl DeepView for PropertyName {
    type V = PropertyName;

    open spec fn deep_view(&self) -> PropertyName {
        *self
    }
}

impl DeepView for DisplayType {
    type V = DisplayType;

    open spec fn deep_view(&self) -> DisplayType {
        *self
    }
}

impl DeepView for Length {
    type V = Length;

    open spec fn deep_view(&self) -> Length {
        *self
    }
}

impl DeepView for CssError {
    type V = CssError;

    open spec fn deep_view(&self) -> CssError {
        *self
    }
}

impl DeepView for Color {
    type V = ColorV;

    open spec fn deep_view(&self) -> ColorV {
        match self {
            Color::Rgb(r, g, b) => ColorV::Rgb(*r, *g, *b),
            Color::Named(s) => ColorV::Named(s@),
            Color::Hex(h) => ColorV::Hex(*h),
        }
    }
}

impl DeepView for PropertyValue {
    type V = PropertyValueV;

    open spec fn deep_view(&self) -> PropertyValueV {
        match self {
            PropertyValue::Color(c) => PropertyValueV::Color(c.deep_view()),
            PropertyValue::Length(l) => PropertyValueV::Length(*l),
            PropertyValue::Display(d) => PropertyValueV::Display(*d),
            PropertyValue::Other(s) => PropertyValueV::Other(s@),
        }
    }
}

impl DeepView for Selector {
    type V = SelectorV;

    open spec fn deep_view(&self) -> SelectorV {
        SelectorV {
            tag_name: self.tag_name.deep_view(),
            id: self.id.deep_view(),
            class: self.class.deep_view(),
        }
    }
}

impl DeepView for Rule {
    type V = RuleV;

    open spec fn deep_view(&self) -> RuleV {
        RuleV { selector: self.selector.deep_view(), properties: self.properties.deep_view() }
    }
}

impl DeepView for Stylesheet {
    type V = Seq<RuleV>;

    open spec fn deep_view(&self) -> Seq<RuleV> {
        self.rules.deep_view()
    }
}

// ---------------------------------------------------------------------------
// The ordered property map
// ---------------------------------------------------------------------------

/// Looks a key up in an entry list: the first binding wins (a well-formed
/// list binds each key at most once).
pub open spec fn sm_get(m: Seq<(PropertyName, PropertyValueV)>, k: PropertyName) -> Option<
    PropertyValueV,
>
    decreases m.len(),
{
    if m.len() == 0 {
        None
    } else if m[0].0 == k {
        Some(m[0].1)
    } else {
        sm_get(m.drop_first(), k)
    }
}

/// Binds `k` to `v`: replaces the value in place where `k` is already
/// bound, else appends the new binding.
pub open spec fn sm_insert(
    m: Seq<(PropertyName, PropertyValueV)>,
    k: PropertyName,
    v: PropertyValueV,
) -> Seq<(PropertyName, PropertyValueV)>
    decreases m.len(),
{
    if m.len() == 0 {
        seq![(k, v)]
    } else if m[0].0 == k {
        seq![(k, v)] + m.drop_first()
    } else {
        seq![m[0]] + sm_insert(m.drop_first(), k, v)
    }
}

/// Binds every entry of `other` in order, later bindings replacing earlier
/// ones.
pub open spec fn sm_extend(
    m: Seq<(PropertyName, PropertyValueV)>,
    other: Seq<(PropertyName, PropertyValueV)>,
) -> Seq<(PropertyName, PropertyValueV)>
    decreases other.len(),
{
    if other.len() == 0 {
        m
    } else {
        sm_extend(sm_insert(m, other[0].0, other[0].1), other.drop_first())
    }
}

/// Each key is bound at most once.
pub open spec fn sm_wf(m: Seq<(PropertyName, PropertyValueV)>) -> bool
    decreases m.len(),
{
    m.len() == 0 || (sm_get(m.drop_first(), m[0].0) is None && sm_wf(m.drop_first()))
}

/// A mapping from property names to resolved values that remembers the
/// order in which names were first set.
#[derive(Debug, PartialEq)]
pub struct StyleMap {
    entries: Vec<(PropertyName, PropertyValue)>,
}

impl DeepView for StyleMap {
    type V = Seq<(PropertyName, PropertyValueV)>;

    closed spec fn deep_view(&self) -> Seq<(PropertyName, PropertyValueV)> {
        self.entries.deep_view()
    }
}

impl StyleMap {
    /// Each key bound at most once; every constructor and method keeps this.
    pub open spec fn wf(&self) -> bool {
        sm_wf(self.deep_view())
    }

    /// An empty map.
    pub fn new() -> (r: StyleMap)
        ensures
            r.deep_view() =~= Seq::<(PropertyName, PropertyValueV)>::empty(),
            r.wf(),
    {
        let r = StyleMap { entries: Vec::new() };
        proof {
            assert(r.deep_view() =~= Seq::<(PropertyName, PropertyValueV)>::empty());
        }
        r
    }

    /// How many names are bound.
    pub fn len(&self) -> (r: usize)
        ensures
            r == self.deep_view().len(),
    {
        self.entries.len()
    }

    /// The entry at a position, in binding order.
    pub fn entry_at(&self, i: usize) -> (r: &(PropertyName, PropertyValue))
        requires
            i < self.deep_view().len(),
        ensures
            r.deep_view() == self.deep_view()[i as int],
    {
        &self.entries[i]
    }

    /// The value bound to `name`, if any.
    #[verifier::loop_isolation(false)]
    pub fn get(&self, name: PropertyName) -> (r: Option<&PropertyValue>)
        ensures
            match r {
                Some(v) => sm_get(self.deep_view(), name) == Some(v.deep_view()),
                None => sm_get(self.deep_view(), name) is None,
            },
    {
        let ghost m = self.deep_view();
        let n = self.entries.len();
        proof {
            assert(m.subrange(0, n as int) =~= m);
        }
        let mut i: usize = 0;
        while i < n
            invariant
                0 <= i <= n,
                n == self.deep_view().len(),
                m == self.deep_view(),
                sm_get(m, name) == sm_get(m.subrange(i as int, n as int), name),
            decreases n - i,
        {
            proof {
                assert(m.subrange(i as int, n as int)[0] == m[i as int]);
                assert(m.subrange(i as int, n as int).drop_first() =~= m.subrange(
                    i as int + 1,
                    n as int,
                ));
            }
            if self.entries[i].0 == name {
                return Some(&self.entries[i].1);
            }
            i = i + 1;
        }
        proof {
            assert(m.subrange(i as int, n as int) =~= Seq::<(PropertyName, PropertyValueV)>::empty());
        }
        None
    }

    /// Binds `name` to `value`, replacing in place where already bound.
    #[verifier::loop_isolation(false)]
    pub fn insert(&mut self, name: PropertyName, value: PropertyValue)
        ensures
            final(self).deep_view() == sm_insert(old(self).deep_view(), name, value.deep_view()),
            old(self).wf() ==> final(self).wf(),
    {
        let ghost m0 = self.deep_view();
        let ghost vv = value.deep_view();
        let n = self.entries.len();
        proof {
            assert(m0.subrange(0, n as int) =~= m0);
            assert(m0.subrange(0, 0) + sm_insert(m0.subrange(0, n as int), name, vv) =~= sm_insert(
                m0,
                name,
                vv,
            ));
        }
        let mut i: usize = 0;
        while i < n
            invariant
                0 <= i <= n,
                n == self.deep_view().len(),
                m0 == self.deep_view(),
                forall|j: int| 0 <= j < i ==> m0[j].0 != name,
                sm_insert(m0, name, vv) == m0.subrange(0, i as int) + sm_insert(
                    m0.subrange(i as int, n as int),
                    name,
                    vv,
                ),
            decreases n - i,
        {
            proof {
                assert(m0.subrange(i as int, n as int)[0] == m0[i as int]);
                assert(m0.subrange(i as int, n as int).drop_first() =~= m0.subrange(
                    i as int + 1,
                    n as int,
                ));
            }
            if self.entries[i].0 == name {
                self.entries[i] = (name, value);
                proof {
                    assert(self.entries@[i as int].deep_view() == (name, vv));
                    assert(self.deep_view() =~= m0.update(i as int, (name, vv)));
                    assert(sm_insert(m0.subrange(i as int, n as int), name, vv) =~= seq![
                        (name, vv),
                    ] + m0.subrange(i as int + 1, n as int));
                    assert(m0.subrange(0, i as int) + (seq![(name, vv)] + m0.subrange(
                        i as int + 1,
                        n as int,
                    )) =~= m0.update(i as int, (name, vv)));
                    lemma_sm_insert_wf(m0, name, vv);
                }
                return ;
            }
            proof {
                assert(m0.subrange(0, i as int).push(m0[i as int]) =~= m0.subrange(
                    0,
                    i as int + 1,
                ));
                assert(m0.subrange(0, i as int) + (seq![m0[i as int]] + sm_insert(
                    m0.subrange(i as int + 1, n as int),
                    name,
                    vv,
                )) =~= m0.subrange(0, i as int + 1) + sm_insert(
                    m0.subrange(i as int + 1, n as int),
                    name,
                    vv,
                ));
            }
            i = i + 1;
        }
        self.entries.push((name, value));
        proof {
            assert(m0.subrange(i as int, n as int) =~= Seq::<(PropertyName, PropertyValueV)>::empty());
            assert(self.deep_view() =~= m0.push((name, vv)));
            assert(m0.subrange(0, n as int) + seq![(name, vv)] =~= m0.push((name, vv)));
            lemma_sm_insert_wf(m0, name, vv);
        }
    }

    /// A structural copy whose view is the same.
    #[verifier::loop_isolation(false)]
    pub fn dup(&self) -> (r: StyleMap)
        ensures
            r.deep_view() == self.deep_view(),
    {
        let n = self.entries.len();
        let mut entries: Vec<(PropertyName, PropertyValue)> = Vec::new();
        let mut i: usize = 0;
        while i < n
            invariant
                0 <= i <= n,
                n == self.deep_view().len(),
                entries.deep_view() =~= self.deep_view().subrange(0, i as int),
            decreases n - i,
        {
            let name = self.entries[i].0;
            let value = dup_value(&self.entries[i].1);
            entries.push((name, value));
            proof {
                assert(self.deep_view()[i as int] == (
                    self.entries@[i as int].0,
                    self.entries@[i as int].1.deep_view(),
                ));
                assert(entries.deep_view() =~= self.deep_view().subrange(0, i as int + 1));
            }
            i = i + 1;
        }
        let r = StyleMap { entries };
        proof {
            assert(r.deep_view() =~= self.deep_view());
        }
        r
    }

    /// Binds every entry of `other`, in order, into this map.
    #[verifier::loop_isolation(false)]
    pub fn extend_from(&mut self, other: &StyleMap)
        ensures
            final(self).deep_view() == sm_extend(old(self).deep_view(), other.deep_view()),
            old(self).wf() ==> final(self).wf(),
    {
        let ghost m0 = self.deep_view();
        let ghost o = other.deep_view();
        let n = other.entries.len();
        proof {
            assert(o.subrange(0, n as int) =~= o);
        }
        let mut i: usize = 0;
        while i < n
            invariant
                0 <= i <= n,
                n == other.deep_view().len(),
                o == other.deep_view(),
                sm_extend(m0, o) == sm_extend(self.deep_view(), o.subrange(i as int, n as int)),
                sm_wf(m0) ==> self.wf(),
            decreases n - i,
        {
            proof {
                assert(o.subrange(i as int, n as int)[0] == o[i as int]);
                assert(o.subrange(i as int, n as int).drop_first() =~= o.subrange(
                    i as int + 1,
                    n as int,
                ));
            }
            let name = other.entries[i].0;
            let value = dup_value(&other.entries[i].1);
            self.insert(name, value);
            i = i + 1;
        }
        proof {
            assert(o.subrange(i as int, n as int) =~= Seq::<(PropertyName, PropertyValueV)>::empty());
        }
    }
}

/// Inserting keeps well-formedness, and afterwards `k` is bound to `v`
/// while every other key keeps its binding.
pub proof fn lemma_sm_insert_wf(
    m: Seq<(PropertyName, PropertyValueV)>,
    k: PropertyName,
    v: PropertyValueV,
)
    ensures
        sm_wf(m) ==> sm_wf(sm_insert(m, k, v)),
        sm_get(sm_insert(m, k, v), k) == Some(v),
        forall|k2: PropertyName|
            k2 != k ==> sm_get(sm_insert(m, k, v), k2) == sm_get(m, k2),
    decreases m.len(),
{
    let r = sm_insert(m, k, v);
    if m.len() == 0 {
        assert(r =~= seq![(k, v)]);
        assert(r[0] == (k, v));
        assert(r.drop_first() =~= Seq::<(PropertyName, PropertyValueV)>::empty());
        assert(sm_get(r, k) == Some(v));
        assert(sm_get(r.drop_first(), k) is None);
        assert(sm_wf(r.drop_first()));
        assert(sm_wf(r));
        assert forall|k2: PropertyName| k2 != k implies sm_get(r, k2) == sm_get(m, k2) by {
            assert(sm_get(r, k2) == sm_get(r.drop_first(), k2));
        }
    } else if m[0].0 == k {
        assert(r =~= seq![(k, v)] + m.drop_first());
        assert(r[0] == (k, v));
        assert(r.drop_first() =~= m.drop_first());
        assert(sm_get(r, k) == Some(v));
        if sm_wf(m) {
            assert(sm_get(m.drop_first(), m[0].0) is None);
            assert(sm_wf(r));
        }
        assert forall|k2: PropertyName| k2 != k implies sm_get(r, k2) == sm_get(m, k2) by {
            assert(sm_get(r, k2) == sm_get(m.drop_first(), k2));
            assert(sm_get(m, k2) == sm_get(m.drop_first(), k2));
        }
    } else {
        lemma_sm_insert_wf(m.drop_first(), k, v);
        assert(r =~= seq![m[0]] + sm_insert(m.drop_first(), k, v));
        assert(r[0] == m[0]);
        assert(r.drop_first() =~= sm_insert(m.drop_first(), k, v));
        assert(sm_get(r, k) == Some(v));
        if sm_wf(m) {
            assert(sm_get(m.drop_first(), m[0].0) is None);
            assert(sm_get(sm_insert(m.drop_first(), k, v), m[0].0) == sm_get(
                m.drop_first(),
                m[0].0,
            ));
            assert(sm_wf(r));
        }
        assert forall|k2: PropertyName| k2 != k implies sm_get(r, k2) == sm_get(m, k2) by {
            if k2 == m[0].0 {
                assert(sm_get(r, k2) == Some(m[0].1));
                assert(sm_get(m, k2) == Some(m[0].1));
            } else {
                assert(sm_get(r, k2) == sm_get(r.drop_first(), k2));
                assert(sm_get(m, k2) == sm_get(m.drop_first(), k2));
            }
        }
    }
}

/// Extending binds the keys of `other` to their last values there and
/// keeps well-formedness.
pub proof fn lemma_sm_extend_wf(
    m: Seq<(PropertyName, PropertyValueV)>,
    other: Seq<(PropertyName, PropertyValueV)>,
)
    ensures
        sm_wf(m) ==> sm_wf(sm_extend(m, other)),
    decreases other.len(),
{
    if other.len() > 0 {
        lemma_sm_insert_wf(m, other[0].0, other[0].1);
        lemma_sm_extend_wf(sm_insert(m, other[0].0, other[0].1), other.drop_first());
    }
}


/// The last value `entries` binds `k` to, if any.
pub open spec fn pairs_last(
    entries: Seq<(PropertyName, PropertyValueV)>,
    k: PropertyName,
) -> Option<PropertyValueV>
    decreases entries.len(),
{
    if entries.len() == 0 {
        None
    } else {
        match pairs_last(entries.drop_first(), k) {
            Some(v) => Some(v),
            None => if entries[0].0 == k {
                Some(entries[0].1)
            } else {
                None
            },
        }
    }
}

/// A key is unbound exactly when no entry carries it.
pub proof fn lemma_sm_get_none(m: Seq<(PropertyName, PropertyValueV)>, k: PropertyName)
    ensures
        (sm_get(m, k) is None) <==> (forall|i: int| 0 <= i < m.len() ==> (#[trigger] m[i]).0 != k),
    decreases m.len(),
{
    if m.len() > 0 {
        lemma_sm_get_none(m.drop_first(), k);
        assert forall|i: int| 1 <= i < m.len() implies m.drop_first()[i - 1] == m[i] by {}
        if sm_get(m, k) is None {
            assert forall|i: int| 0 <= i < m.len() implies (#[trigger] m[i]).0 != k by {
                if i > 0 {
                    assert(m.drop_first()[i - 1] == m[i]);
                }
            }
        }
        if forall|i: int| 0 <= i < m.len() ==> (#[trigger] m[i]).0 != k {
            assert forall|i: int|
                0 <= i < m.drop_first().len() implies (#[trigger] m.drop_first()[i]).0 != k by {
                assert(m.drop_first()[i] == m[i + 1]);
            }
        }
    }
}

/// Well-formedness is the same as all keys being distinct.
pub proof fn lemma_sm_wf_distinct(m: Seq<(PropertyName, PropertyValueV)>)
    ensures
        sm_wf(m) <==> (forall|i: int, j: int|
            0 <= i < j < m.len() ==> (#[trigger] m[i]).0 != (#[trigger] m[j]).0),
    decreases m.len(),
{
    if m.len() > 0 {
        lemma_sm_wf_distinct(m.drop_first());
        lemma_sm_get_none(m.drop_first(), m[0].0);
        if sm_wf(m) {
            assert forall|i: int, j: int|
                0 <= i < j < m.len() implies (#[trigger] m[i]).0 != (#[trigger] m[j]).0 by {
                if i == 0 {
                    assert(m.drop_first()[j - 1] == m[j]);
                } else {
                    assert(m.drop_first()[i - 1] == m[i]);
                    assert(m.drop_first()[j - 1] == m[j]);
                }
            }
        }
        if forall|i: int, j: int|
            0 <= i < j < m.len() ==> (#[trigger] m[i]).0 != (#[trigger] m[j]).0 {
            assert forall|i: int, j: int|
                0 <= i < j < m.drop_first().len() implies (#[trigger] m.drop_first()[i]).0 != (
                #[trigger] m.drop_first()[j]).0 by {
                assert(m.drop_first()[i] == m[i + 1]);
                assert(m.drop_first()[j] == m[j + 1]);
            }
            assert forall|i: int|
                0 <= i < m.drop_first().len() implies (#[trigger] m.drop_first()[i]).0 != m[0].0 by {
                assert(m.drop_first()[i] == m[i + 1]);
            }
            assert(sm_get(m.drop_first(), m[0].0) is None);
        }
    }
}

/// In a well-formed map each entry's key looks up that entry's value.
pub proof fn lemma_sm_wf_get_at(m: Seq<(PropertyName, PropertyValueV)>, i: int)
    requires
        sm_wf(m),
        0 <= i < m.len(),
    ensures
        sm_get(m, m[i].0) == Some(m[i].1),
    decreases m.len(),
{
    if i > 0 {
        lemma_sm_get_none(m.drop_first(), m[0].0);
        assert(m.drop_first()[i - 1] == m[i]);
        assert(m[i].0 != m[0].0);
        lemma_sm_wf_get_at(m.drop_first(), i - 1);
    }
}

/// Inserting an already-bound key replaces its value in place: the keys,
/// positions and other entries do not move.
pub proof fn lemma_sm_insert_inplace(
    m: Seq<(PropertyName, PropertyValueV)>,
    k: PropertyName,
    v: PropertyValueV,
)
    requires
        sm_wf(m),
        sm_get(m, k) is Some,
    ensures
        sm_insert(m, k, v).len() == m.len(),
        forall|i: int| 0 <= i < m.len() ==> (#[trigger] sm_insert(m, k, v)[i]).0 == m[i].0,
        forall|i: int|
            0 <= i < m.len() && m[i].0 != k ==> (#[trigger] sm_insert(m, k, v)[i]) == m[i],
        forall|i: int|
            0 <= i < m.len() && m[i].0 == k ==> (#[trigger] sm_insert(m, k, v)[i]) == (k, v),
    decreases m.len(),
{
    let r = sm_insert(m, k, v);
    if m[0].0 == k {
        assert(r =~= seq![(k, v)] + m.drop_first());
        lemma_sm_get_none(m.drop_first(), k);
        assert forall|i: int| 0 <= i < m.len() implies ((#[trigger] r[i]).0 == m[i].0 && (m[i].0
            != k ==> r[i] == m[i]) && (m[i].0 == k ==> r[i] == (k, v))) by {
            if i > 0 {
                assert(r[i] == m.drop_first()[i - 1]);
                assert(m.drop_first()[i - 1] == m[i]);
                assert(m[i].0 != k);
            }
        }
    } else {
        assert(r =~= seq![m[0]] + sm_insert(m.drop_first(), k, v));
        lemma_sm_insert_inplace(m.drop_first(), k, v);
        assert forall|i: int| 0 <= i < m.len() implies ((#[trigger] r[i]).0 == m[i].0 && (m[i].0
            != k ==> r[i] == m[i]) && (m[i].0 == k ==> r[i] == (k, v))) by {
            if i > 0 {
                assert(r[i] == sm_insert(m.drop_first(), k, v)[i - 1]);
                assert(m.drop_first()[i - 1] == m[i]);
            }
        }
    }
}

/// What a key looks up after an extend: the last value the extension
/// binds it to, or what it looked up before.
pub proof fn lemma_sm_extend_get(
    m: Seq<(PropertyName, PropertyValueV)>,
    p: Seq<(PropertyName, PropertyValueV)>,
    k: PropertyName,
)
    ensures
        sm_get(sm_extend(m, p), k) == match pairs_last(p, k) {
            Some(v) => Some(v),
            None => sm_get(m, k),
        },
    decreases p.len(),
{
    if p.len() > 0 {
        lemma_sm_insert_wf(m, p[0].0, p[0].1);
        lemma_sm_extend_get(sm_insert(m, p[0].0, p[0].1), p.drop_first(), k);
    }
}

/// Extending twice with the same entries is the same as extending once.
pub proof fn lemma_sm_extend_idempotent(
    m: Seq<(PropertyName, PropertyValueV)>,
    p: Seq<(PropertyName, PropertyValueV)>,
)
    requires
        sm_wf(m),
    ensures
        sm_extend(sm_extend(m, p), p) == sm_extend(m, p),
{
    let full = sm_extend(m, p);
    lemma_sm_extend_wf(m, p);
    assert forall|k: PropertyName| pairs_last(p, k) is Some implies sm_get(full, k) == pairs_last(
        p,
        k,
    ) by {
        lemma_sm_extend_get(m, p, k);
    }
    lemma_sm_extend_stable(full, full, p);
}

/// Replaying an extension over a map that already carries its final
/// values, outside of keys the remaining entries will rewrite anyway,
/// leaves the map as it stands.
proof fn lemma_sm_extend_stable(
    full: Seq<(PropertyName, PropertyValueV)>,
    cur: Seq<(PropertyName, PropertyValueV)>,
    p: Seq<(PropertyName, PropertyValueV)>,
)
    requires
        sm_wf(full),
        cur.len() == full.len(),
        forall|i: int| 0 <= i < cur.len() ==> (#[trigger] cur[i]).0 == full[i].0,
        forall|i: int|
            0 <= i < cur.len() ==> ((#[trigger] cur[i]).1 == full[i].1 || pairs_last(p, cur[i].0)
                is Some),
        forall|k: PropertyName|
            pairs_last(p, k) is Some ==> sm_get(full, k) == #[trigger] pairs_last(p, k),
    ensures
        sm_extend(cur, p) == full,
    decreases p.len(),
{
    lemma_sm_wf_distinct(full);
    if p.len() == 0 {
        assert forall|i: int| 0 <= i < cur.len() implies cur[i] == full[i] by {
            assert(cur[i].1 == full[i].1);
            assert(cur[i] == (cur[i].0, cur[i].1));
            assert(full[i] == (full[i].0, full[i].1));
        }
        assert(cur =~= full);
    } else {
        let k0 = p[0].0;
        let v0 = p[0].1;
        let rest = p.drop_first();
        assert(pairs_last(p, k0) is Some);
        assert(sm_get(full, k0) is Some);
        lemma_sm_get_none(full, k0);
        let i0 = choose|i: int| 0 <= i < full.len() && full[i].0 == k0;
        assert(cur[i0].0 == k0);
        lemma_sm_get_none(cur, k0);
        assert(sm_get(cur, k0) is Some);
        assert(sm_wf(cur)) by {
            lemma_sm_wf_distinct(cur);
        }
        lemma_sm_insert_inplace(cur, k0, v0);
        let cur2 = sm_insert(cur, k0, v0);
        assert forall|i: int|
            0 <= i < cur2.len() implies ((#[trigger] cur2[i]).1 == full[i].1 || pairs_last(
            rest,
            cur2[i].0,
        ) is Some) by {
            if cur2[i].0 == k0 {
                assert(cur[i].0 == k0);
                assert(i == i0) by {
                    if i != i0 {
                        assert(full[i].0 == k0 && full[i0].0 == k0);
                    }
                }
                if pairs_last(rest, k0) is None {
                    assert(pairs_last(p, k0) == Some(v0));
                    assert(sm_get(full, k0) == Some(v0));
                    lemma_sm_wf_get_at(full, i0);
                    assert(full[i0].1 == v0);
                    assert(cur2[i].1 == v0);
                }
            } else {
                assert(cur2[i] == cur[i]);
                if pairs_last(p, cur[i].0) is Some {
                    assert(pairs_last(rest, cur[i].0) is Some || cur[i].0 == k0);
                }
            }
        }
        assert forall|k: PropertyName|
            pairs_last(rest, k) is Some implies sm_get(full, k) == #[trigger] pairs_last(
            rest,
            k,
        ) by {
            assert(pairs_last(p, k) == pairs_last(rest, k));
        }
        lemma_sm_extend_stable(full, cur2, rest);
    }
}

/// Extending by two entry lists in turn is extending by their
/// concatenation.
pub proof fn lemma_sm_extend_assoc(
    m: Seq<(PropertyName, PropertyValueV)>,
    a: Seq<(PropertyName, PropertyValueV)>,
    b: Seq<(PropertyName, PropertyValueV)>,
)
    ensures
        sm_extend(sm_extend(m, a), b) == sm_extend(m, a + b),
    decreases a.len(),
{
    if a.len() == 0 {
        assert(a + b =~= b);
    } else {
        assert((a + b)[0] == a[0]);
        assert((a + b).drop_first() =~= a.drop_first() + b);
        lemma_sm_extend_assoc(sm_insert(m, a[0].0, a[0].1), a.drop_first(), b);
    }
}

/// A structural copy of a property value with the same view.
pub fn dup_value(v: &PropertyValue) -> (r: PropertyValue)
    ensures
        r.deep_view() == v.deep_view(),
{
    match v {
        PropertyValue::Color(c) => PropertyValue::Color(
            match c {
                Color::Rgb(r, g, b) => Color::Rgb(*r, *g, *b),
                Color::Named(s) => Color::Named(s.clone()),
                Color::Hex(h) => Color::Hex(*h),
            },
        ),
        PropertyValue::Length(l) => PropertyValue::Length(*l),
        PropertyValue::Display(d) => PropertyValue::Display(*d),
        PropertyValue::Other(s) => PropertyValue::Other(s.clone()),
    }
}

// ---------------------------------------------------------------------------
// Construction and defaults
// ---------------------------------------------------------------------------

impl Clone for StyleMap {
    /// A structural copy whose view is the same.
    fn clone(&self) -> (r: StyleMap)
        ensures
            r.deep_view() == self.deep_view(),
    {
        self.dup()
    }
}

impl Rule {
    /// A rule from its selector and properties.
    pub fn new(name: Selector, properties: StyleMap) -> (r: Rule)
        ensures
            r.deep_view() == (RuleV {
                selector: name.deep_view(),
                properties: properties.deep_view(),
            }),
    {
        Rule { selector: name, properties }
    }
}

impl Selector {
    /// A selector from its three optional categories.
    pub fn new(tag_name: Option<String>, id: Option<String>, classes: Option<String>) -> (r:
        Selector)
        ensures
            r.deep_view() == (SelectorV {
                tag_name: tag_name.deep_view(),
                id: id.deep_view(),
                class: classes.deep_view(),
            }),
    {
        Selector { tag_name, id, class: classes }
    }
}

impl Default for Stylesheet {
    /// A stylesheet with no rules.
    fn default() -> (r: Stylesheet)
        ensures
            r.deep_view() =~= Seq::<RuleV>::empty(),
    {
        let r = Stylesheet { rules: Vec::new() };
        proof {
            assert(r.deep_view() =~= Seq::<RuleV>::empty());
        }
        r
    }
}

/// The view of a selector with no categories.
pub open spec fn empty_selector_v() -> SelectorV {
    SelectorV { tag_name: None, id: None, class: None }
}

/// The view of a rule that binds nothing.
pub open spec fn empty_rule_v() -> RuleV {
    RuleV { selector: empty_selector_v(), properties: Seq::empty() }
}

impl Default for Selector {
    /// A selector with no categories.
    fn default() -> (r: Selector)
        ensures
            r.deep_view() == empty_selector_v(),
    {
        Selector { tag_name: None, id: None, class: None }
    }
}

impl Default for Rule {
    /// A rule that selects nothing and binds nothing.
    fn default() -> (r: Rule)
        ensures
            r.deep_view() =~= empty_rule_v(),
    {
        Rule { selector: Selector::default(), properties: StyleMap::new() }
    }
}

impl Default for Length {
    /// Zero pixels.
    fn default() -> (r: Length)
        ensures
            r == Length::Px(0i16),
    {
        Length::Px(0)
    }
}

impl Default for DisplayType {
    /// Block flow.
    fn default() -> (r: DisplayType)
        ensures
            r == DisplayType::Block,
    {
        DisplayType::Block
    }
}

impl Default for PropertyName {
    /// The `color` property.
    fn default() -> (r: PropertyName)
        ensures
            r == PropertyName::Color,
    {
        PropertyName::Color
    }
}

impl Default for PropertyValue {
    /// An empty opaque value.
    fn default() -> (r: PropertyValue)
        ensures
            r.deep_view() == PropertyValueV::Other(Seq::<char>::empty()),
    {
        PropertyValue::Other(String::new())
    }
}

impl Default for Color {
    /// White.
    fn default() -> (r: Color)
        ensures
            r.deep_view() == ColorV::Hex(0xffffffu32),
    {
        Color::Hex(0xffffff)
    }
}

// ---------------------------------------------------------------------------
// Rendering values back to text
// ---------------------------------------------------------------------------

/// The script-facing name of each property.
pub open spec fn spec_property_name_str(n: PropertyName) -> Seq<char> {
    match n {
        PropertyName::Color => "color"@,
        PropertyName::BackgroundColor => "backgroundColor"@,
        PropertyName::Width => "width"@,
        PropertyName::Height => "height"@,
        PropertyName::Margin => "margin"@,
        PropertyName::MarginTop => "marginTop"@,
        PropertyName::MarginBottom => "marginBottom"@,
        PropertyName::MarginLeft => "marginLeft"@,
        PropertyName::MarginRight => "marginRight"@,
        PropertyName::Padding => "padding"@,
        PropertyName::PaddingTop => "paddingTop"@,
        PropertyName::PaddingBottom => "paddingBottom"@,
        PropertyName::PaddingLeft => "paddingLeft"@,
        PropertyName::PaddingRight => "paddingRight"@,
        PropertyName::Display => "display"@,
        PropertyName::Other => "other"@,
    }
}

impl PropertyName {
    /// The script-facing name of the property.
    pub fn to_str(&self) -> (r: &'static str)
        ensures
            r@ == spec_property_name_str(*self),
    {
        match self {
            PropertyName::Color => "color",
            PropertyName::BackgroundColor => "backgroundColor",
            PropertyName::Width => "width",
            PropertyName::Height => "height",
            PropertyName::Margin => "margin",
            PropertyName::MarginTop => "marginTop",
            PropertyName::MarginBottom => "marginBottom",
            PropertyName::MarginLeft => "marginLeft",
            PropertyName::MarginRight => "marginRight",
            PropertyName::Padding => "padding",
            PropertyName::PaddingTop => "paddingTop",
            PropertyName::PaddingBottom => "paddingBottom",
            PropertyName::PaddingLeft => "paddingLeft",
            PropertyName::PaddingRight => "paddingRight",
            PropertyName::Display => "display",
            PropertyName::Other => "other",
        }
    }
}

/// The palette of color keywords: the six known names; anything else is
/// black.
pub open spec fn spec_named_rgb(name: Seq<char>) -> (u8, u8, u8) {
    if name == "black"@ {
        (0u8, 0u8, 0u8)
    } else if name == "white"@ {
        (255u8, 255u8, 255u8)
    } else if name == "red"@ {
        (255u8, 0u8, 0u8)
    } else if name == "orange"@ {
        (255u8, 165u8, 0u8)
    } else if name == "green"@ {
        (0u8, 255u8, 0u8)
    } else if name == "blue"@ {
        (0u8, 0u8, 255u8)
    } else {
        (0u8, 0u8, 0u8)
    }
}

/// The red, green and blue channels a color resolves to.
pub open spec fn spec_rgb(c: ColorV) -> (u8, u8, u8) {
    match c {
        ColorV::Rgb(r, g, b) => (r, g, b),
        ColorV::Named(name) => spec_named_rgb(name),
        ColorV::Hex(h) => (((h >> 16u32) & 0xff) as u8, ((h >> 8u32) & 0xff) as u8, (h
            & 0xff) as u8),
    }
}

/// The text form of a resolved color: `rdb(` then the three channels.
pub open spec fn spec_rgb_str(c: ColorV) -> Seq<char> {
    let (r, g, b) = spec_rgb(c);
    "rdb("@ + spec_dec(r as nat) + ", "@ + spec_dec(g as nat) + ", "@ + spec_dec(b as nat) + ")"@
}

impl Color {
    /// The red, green and blue channels this color resolves to: a named
    /// color through the fixed palette, a hex literal through its three
    /// bytes.
    pub fn get_rgb(&self) -> (rgb: (u8, u8, u8))
        ensures
            rgb == spec_rgb(self.deep_view()),
    {
        match self {
            Color::Rgb(r, g, b) => (*r, *g, *b),
            Color::Named(name) => {
                if str_eq(name.as_str(), "black") {
                    (0, 0, 0)
                } else if str_eq(name.as_str(), "white") {
                    (255, 255, 255)
                } else if str_eq(name.as_str(), "red") {
                    (255, 0, 0)
                } else if str_eq(name.as_str(), "orange") {
                    (255, 165, 0)
                } else if str_eq(name.as_str(), "green") {
                    (0, 255, 0)
                } else if str_eq(name.as_str(), "blue") {
                    (0, 0, 255)
                } else {
                    (0, 0, 0)
                }
            },
            Color::Hex(hex) => {
                let h: u32 = *hex;
                let r: u32 = (h >> 16u32) & 0xff;
                let g: u32 = (h >> 8u32) & 0xff;
                let b: u32 = h & 0xff;
                assert(r <= 0xff && g <= 0xff && b <= 0xff) by (bit_vector)
                    requires
                        r == (h >> 16u32) & 0xff && g == (h >> 8u32) & 0xff && b == h & 0xff,
                ;
                (r as u8, g as u8, b as u8)
            },
        }
    }

    /// The resolved channels as text.
    pub fn get_rgb_str(&self) -> (s: String)
        ensures
            s@ == spec_rgb_str(self.deep_view()),
    {
        let (r, g, b) = self.get_rgb();
        let mut out = String::from_str("rdb(");
        out.append(u32_to_dec(r as u32).as_str());
        out.append(", ");
        out.append(u32_to_dec(g as u32).as_str());
        out.append(", ");
        out.append(u32_to_dec(b as u32).as_str());
        out.append(")");
        out
    }
}

/// The text form of a length: the number then `px`, or the number then `%`.
pub open spec fn spec_length_str(l: Length) -> Seq<char> {
    match l {
        Length::Px(px) => spec_dec_int(px as int) + "px"@,
        Length::Percent(pr) => spec_dec(pr as nat) + "%"@,
    }
}

impl Length {
    /// This length as text.
    pub fn to_str(&self) -> (s: String)
        ensures
            s@ == spec_length_str(*self),
    {
        match self {
            Length::Px(px) => {
                let mut out = i16_to_dec(*px);
                out.append("px");
                out
            },
            Length::Percent(pr) => {
                let mut out = u32_to_dec(*pr as u32);
                out.append("%");
                out
            },
        }
    }
}

/// The text form of a property value, as the script boundary reports it.
pub open spec fn spec_value_str(v: PropertyValueV) -> Seq<char> {
    match v {
        PropertyValueV::Color(c) => spec_rgb_str(c),
        PropertyValueV::Length(l) => spec_length_str(l),
        PropertyValueV::Display(_d) => "Display"@,
        PropertyValueV::Other(s) => s,
    }
}

impl PropertyValue {
    /// This value as text.
    pub fn to_str(&self) -> (s: String)
        ensures
            s@ == spec_value_str(self.deep_view()),
    {
        match self {
            PropertyValue::Color(color) => color.get_rgb_str(),
            PropertyValue::Length(length) => length.to_str(),
            PropertyValue::Display(_display) => String::from_str("Display"),
            PropertyValue::Other(other) => String::from_str(other.as_str()),
        }
    }
}

} // verus!
