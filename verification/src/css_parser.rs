//! Recursive-descent parsing of stylesheet text: selectors, declaration
//! blocks, and the value grammar for colors, lengths and display keywords.
//!
//! A value that cannot be read (a percentage above 100, an unreadable
//! number, bad hex digits) does not abort the parse: the declaration is
//! skipped and a [`CssError`] is collected, so one bad declaration never
//! discards the rest of the stylesheet.

use vstd::prelude::*;
use crate::css::{
    Color, ColorV, CssError, DisplayType, Length, PropertyName, PropertyValue, PropertyValueV,
    Rule, RuleV, Selector, SelectorV, StyleMap, Stylesheet, empty_rule_v, sm_insert,
    spec_length_str,
};
use crate::text::{
    is_dec_digit, lemma_dec_form, lemma_parse_i16_dec, lemma_parse_u16_dec, parse_hex_u32,
    parse_i16, parse_u16, spec_dec, spec_dec_int, spec_parse_hex_u32, spec_parse_i16,
    spec_parse_u16, str_eq,
};

verus! {

// ---------------------------------------------------------------------------
// Character classes of the stylesheet grammar
// ---------------------------------------------------------------------------

/// The one blank the rule grammar skips explicitly.
pub open spec fn spec_is_space(c: char) -> bool {
    c == ' '
}

/// Executable test for [`spec_is_space`].
pub fn is_space(c: char) -> (r: bool)
    ensures
        r == spec_is_space(c),
{
    c == ' '
}

/// An ASCII capital letter.
pub open spec fn spec_is_upper_letter(c: char) -> bool {
    'A' <= c && c <= 'Z'
}

/// Executable test for [`spec_is_upper_letter`].
pub fn is_upper_letter(c: char) -> (r: bool)
    ensures
        r == spec_is_upper_letter(c),
{
    'A' <= c && c <= 'Z'
}

/// An ASCII small letter.
pub open spec fn spec_is_lower_letter(c: char) -> bool {
    'a' <= c && c <= 'z'
}

/// Executable test for [`spec_is_lower_letter`].
pub fn is_lower_letter(c: char) -> (r: bool)
    ensures
        r == spec_is_lower_letter(c),
{
    'a' <= c && c <= 'z'
}

/// An ASCII letter.
pub open spec fn spec_is_letter(c: char) -> bool {
    spec_is_upper_letter(c) || spec_is_lower_letter(c)
}

/// Executable test for [`spec_is_letter`].
pub fn is_letter(c: char) -> (r: bool)
    ensures
        r == spec_is_letter(c),
{
    is_upper_letter(c) || is_lower_letter(c)
}

/// The end of a declaration block.
pub open spec fn spec_is_closing_bracket(c: char) -> bool {
    c == '}'
}

/// Executable test for [`spec_is_closing_bracket`].
pub fn is_closing_bracket(c: char) -> (r: bool)
    ensures
        r == spec_is_closing_bracket(c),
{
    c == '}'
}

/// Neither a closing bracket nor a letter: what the rule loop skips
/// between declarations.
pub open spec fn spec_is_closing_bracket_or_letter(c: char) -> bool {
    !(spec_is_closing_bracket(c) || spec_is_letter(c))
}

/// Executable test for [`spec_is_closing_bracket_or_letter`].
pub fn is_closing_bracket_or_letter(c: char) -> (r: bool)
    ensures
        r == spec_is_closing_bracket_or_letter(c),
{
    !(is_closing_bracket(c) || is_letter(c))
}

/// Not the start of a property name.
pub open spec fn spec_is_not_property_identifier(c: char) -> bool {
    !spec_is_letter(c)
}

/// Executable test for [`spec_is_not_property_identifier`].
pub fn is_not_property_identifier(c: char) -> (r: bool)
    ensures
        r == spec_is_not_property_identifier(c),
{
    !is_letter(c)
}

/// Not a character a selector can start with.
pub open spec fn spec_is_not_valid_selector(c: char) -> bool {
    !spec_is_letter(c) && c != '.' && c != '#'
}

/// Executable test for [`spec_is_not_valid_selector`].
pub fn is_not_valid_selector(c: char) -> (r: bool)
    ensures
        r == spec_is_not_valid_selector(c),
{
    !is_letter(c) && c != '.' && c != '#'
}

// ---------------------------------------------------------------------------
// Generic scanning
// ---------------------------------------------------------------------------

/// The position reached by skipping, from `pos`, every character that
/// satisfies `p`.
pub open spec fn spec_skip(s: Seq<char>, pos: int, p: spec_fn(char) -> bool) -> int
    decreases s.len() - pos,
{
    if pos < s.len() && p(s[pos]) {
        spec_skip(s, pos + 1, p)
    } else {
        pos
    }
}

/// Skipping stays within the input, moves only forward, skips exactly the
/// characters that satisfy `p`, and stops at the first that does not.
pub proof fn lemma_skip_bounds(s: Seq<char>, pos: int, p: spec_fn(char) -> bool)
    requires
        0 <= pos <= s.len(),
    ensures
        pos <= spec_skip(s, pos, p) <= s.len(),
        spec_skip(s, pos, p) < s.len() ==> !p(s[spec_skip(s, pos, p)]),
        forall|i: int| pos <= i < spec_skip(s, pos, p) ==> p(#[trigger] s[i]),
    decreases s.len() - pos,
{
    if pos < s.len() && p(s[pos]) {
        lemma_skip_bounds(s, pos + 1, p);
    }
}

/// Skip every space.
pub open spec fn space_pred() -> spec_fn(char) -> bool {
    |c: char| spec_is_space(c)
}

/// Skip everything that cannot start a selector.
pub open spec fn not_selector_pred() -> spec_fn(char) -> bool {
    |c: char| spec_is_not_valid_selector(c)
}

/// Skip everything between declarations.
pub open spec fn junk_pred() -> spec_fn(char) -> bool {
    |c: char| spec_is_closing_bracket_or_letter(c)
}

/// Skip everything before a property name.
pub open spec fn not_letter_pred() -> spec_fn(char) -> bool {
    |c: char| spec_is_not_property_identifier(c)
}

/// Read until one stop character.
pub open spec fn until_pred(stop: char) -> spec_fn(char) -> bool {
    |c: char| c != stop
}

/// Read until either of two stop characters.
pub open spec fn until2_pred(a: char, b: char) -> spec_fn(char) -> bool {
    |c: char| c != a && c != b
}

// ---------------------------------------------------------------------------
// Reading values
// ---------------------------------------------------------------------------

/// What parsing a display keyword yields: `block` and `inline` name their
/// flow modes; `none` and anything unknown both turn the element off.
pub open spec fn spec_parse_display(v: Seq<char>) -> DisplayType {
    if v == "block"@ {
        DisplayType::Block
    } else if v == "inline"@ {
        DisplayType::Inline
    } else {
        DisplayType::NoDisplay
    }
}

/// What parsing a color value yields: `#` then hex digits is a hex color
/// (bad digits are an error), a value starting `rgb` is recognized but
/// resolves to black, and anything else is kept as a named color.
pub open spec fn spec_parse_color(v: Seq<char>) -> Result<ColorV, CssError> {
    if v.len() >= 1 && v[0] == '#' {
        match spec_parse_hex_u32(v.subrange(1, v.len() as int)) {
            Some(h) => Ok(ColorV::Hex(h)),
            None => Err(CssError::BadHexColor),
        }
    } else if v.len() >= 3 && v[0] == 'r' && v[1] == 'g' && v[2] == 'b' {
        Ok(ColorV::Rgb(0, 0, 0))
    } else {
        Ok(ColorV::Named(v))
    }
}

/// What parsing a length value yields: a trailing `%` makes a percentage,
/// rejected above 100; otherwise the last two characters are the unit and
/// the rest is a pixel count taken at face value.
pub open spec fn spec_parse_length(v: Seq<char>) -> Result<Length, CssError> {
    if v.len() >= 1 && v.last() == '%' {
        match spec_parse_u16(v.subrange(0, v.len() - 1)) {
            Some(n) => if n > 100 {
                Err(CssError::PercentOutOfRange)
            } else {
                Ok(Length::Percent(n as u8))
            },
            None => Err(CssError::BadNumber),
        }
    } else if v.len() < 2 {
        Err(CssError::BadNumber)
    } else {
        match spec_parse_i16(v.subrange(0, v.len() - 2)) {
            Some(n) => Ok(Length::Px(n)),
            None => Err(CssError::BadNumber),
        }
    }
}

/// What a declaration resolves to: the known property names take a color,
/// length or display value; an unknown name is kept whole under `Other`.
pub open spec fn spec_process(name: Seq<char>, value: Seq<char>) -> Result<
    (PropertyName, PropertyValueV),
    CssError,
> {
    if name == "color"@ {
        spec_color_prop(PropertyName::Color, value)
    } else if name == "background-color"@ {
        spec_color_prop(PropertyName::BackgroundColor, value)
    } else if name == "margin"@ {
        spec_length_prop(PropertyName::Margin, value)
    } else if name == "margin-top"@ {
        spec_length_prop(PropertyName::MarginTop, value)
    } else if name == "margin-bottom"@ {
        spec_length_prop(PropertyName::MarginBottom, value)
    } else if name == "margin-left"@ {
        spec_length_prop(PropertyName::MarginLeft, value)
    } else if name == "margin-right"@ {
        spec_length_prop(PropertyName::MarginRight, value)
    } else if name == "padding"@ {
        spec_length_prop(PropertyName::Padding, value)
    } else if name == "padding-top"@ {
        spec_length_prop(PropertyName::PaddingTop, value)
    } else if name == "padding-bottom"@ {
        spec_length_prop(PropertyName::PaddingBottom, value)
    } else if name == "padding-left"@ {
        spec_length_prop(PropertyName::PaddingLeft, value)
    } else if name == "padding-right"@ {
        spec_length_prop(PropertyName::PaddingRight, value)
    } else if name == "width"@ {
        spec_length_prop(PropertyName::Width, value)
    } else if name == "height"@ {
        spec_length_prop(PropertyName::Height, value)
    } else if name == "display"@ {
        Ok((PropertyName::Display, PropertyValueV::Display(spec_parse_display(value))))
    } else {
        Ok((PropertyName::Other, PropertyValueV::Other(value)))
    }
}

/// A color-valued property.
pub open spec fn spec_color_prop(n: PropertyName, value: Seq<char>) -> Result<
    (PropertyName, PropertyValueV),
    CssError,
> {
    match spec_parse_color(value) {
        Ok(c) => Ok((n, PropertyValueV::Color(c))),
        Err(e) => Err(e),
    }
}

/// A length-valued property.
pub open spec fn spec_length_prop(n: PropertyName, value: Seq<char>) -> Result<
    (PropertyName, PropertyValueV),
    CssError,
> {
    match spec_parse_length(value) {
        Ok(l) => Ok((n, PropertyValueV::Length(l))),
        Err(e) => Err(e),
    }
}

// ---------------------------------------------------------------------------
// The rule grammar
// ---------------------------------------------------------------------------

/// What parsing a selector from `pos` yields, and where it ends: after
/// skipping blanks and anything that cannot start a selector, a leading
/// `.` reads a class name and a leading `#` an id; a bare name is a tag.
pub open spec fn spec_parse_selector(s: Seq<char>, pos: int) -> (SelectorV, int) {
    let a = spec_skip(s, pos, space_pred());
    let b = spec_skip(s, a, not_selector_pred());
    if b < s.len() && s[b] == '.' {
        let d = spec_skip(s, b + 1, until2_pred(' ', '{'));
        (SelectorV { tag_name: None, id: None, class: Some(s.subrange(b + 1, d)) }, d)
    } else if b < s.len() && s[b] == '#' {
        let d = spec_skip(s, b + 1, until2_pred(' ', '{'));
        (SelectorV { tag_name: None, id: Some(s.subrange(b + 1, d)), class: None }, d)
    } else {
        let d = spec_skip(s, b, until2_pred(' ', '{'));
        (SelectorV { tag_name: Some(s.subrange(b, d)), id: None, class: None }, d)
    }
}

/// What parsing one declaration from `pos` yields, and where it ends: the
/// name runs to the next `:`, the value to the next `;`.
pub open spec fn spec_parse_property(s: Seq<char>, pos: int) -> (
    Result<(PropertyName, PropertyValueV), CssError>,
    int,
) {
    let a = spec_skip(s, pos, space_pred());
    let b = spec_skip(s, a, until_pred(':'));
    let name = s.subrange(a, b);
    let b2 = if b < s.len() {
        b + 1
    } else {
        b
    };
    let c0 = spec_skip(s, b2, space_pred());
    let d = spec_skip(s, c0, until_pred(';'));
    (spec_process(name, s.subrange(c0, d)), d)
}

/// A declaration never ends before it began, and always makes progress
/// when it starts at a letter.
pub proof fn lemma_property_advances(s: Seq<char>, pos: int)
    requires
        0 <= pos <= s.len(),
    ensures
        pos <= spec_parse_property(s, pos).1 <= s.len(),
        pos < s.len() && s[pos] != ' ' && s[pos] != ':' ==> spec_parse_property(s, pos).1 > pos,
{
    let a = spec_skip(s, pos, space_pred());
    lemma_skip_bounds(s, pos, space_pred());
    let b = spec_skip(s, a, until_pred(':'));
    lemma_skip_bounds(s, a, until_pred(':'));
    let b2 = if b < s.len() {
        b + 1
    } else {
        b
    };
    let c0 = spec_skip(s, b2, space_pred());
    lemma_skip_bounds(s, b2, space_pred());
    let d = spec_skip(s, c0, until_pred(';'));
    lemma_skip_bounds(s, c0, until_pred(';'));
    if pos < s.len() && s[pos] != ' ' && s[pos] != ':' {
        assert(a == pos);
        assert(b >= pos + 1);
    }
}

/// What the declaration loop of one rule collects from `pos` on: resolved
/// properties extend `props`, rejected declarations append their errors to
/// `errs`, and the loop stops at `}` or at the input's end.
pub open spec fn spec_parse_decls(
    s: Seq<char>,
    pos: int,
    props: Seq<(PropertyName, PropertyValueV)>,
    errs: Seq<CssError>,
) -> (Seq<(PropertyName, PropertyValueV)>, Seq<CssError>, int)
    decreases s.len() - pos,
    via spec_parse_decls_dec
{
    if pos < 0 || pos >= s.len() || s[pos] == '}' {
        (props, errs, pos)
    } else {
        let p1 = spec_skip(s, pos, junk_pred());
        if p1 < s.len() && s[p1] == '}' {
            (props, errs, p1)
        } else {
            let (res, p2) = spec_parse_property(s, p1);
            match res {
                Ok((n, v)) => spec_parse_decls(s, p2, sm_insert(props, n, v), errs),
                Err(e) => spec_parse_decls(s, p2, props, errs.push(e)),
            }
        }
    }
}

#[via_fn]
proof fn spec_parse_decls_dec(
    s: Seq<char>,
    pos: int,
    props: Seq<(PropertyName, PropertyValueV)>,
    errs: Seq<CssError>,
) {
    if !(pos < 0 || pos >= s.len() || s[pos] == '}') {
        let p1 = spec_skip(s, pos, junk_pred());
        lemma_skip_bounds(s, pos, junk_pred());
        if !(p1 < s.len() && s[p1] == '}') {
            lemma_property_advances(s, p1);
            if p1 < s.len() {
                assert(!(junk_pred())(s[p1]));
                assert(spec_is_letter(s[p1]));
                assert(s[p1] != ' ' && s[p1] != ':');
                assert(spec_parse_property(s, p1).1 > p1);
            }
        }
    }
}

/// Where the declaration loop ends, within bounds.
pub proof fn lemma_decls_bounds(
    s: Seq<char>,
    pos: int,
    props: Seq<(PropertyName, PropertyValueV)>,
    errs: Seq<CssError>,
)
    requires
        0 <= pos <= s.len(),
    ensures
        pos <= spec_parse_decls(s, pos, props, errs).2 <= s.len(),
    decreases s.len() - pos,
{
    if !(pos >= s.len() || s[pos] == '}') {
        let p1 = spec_skip(s, pos, junk_pred());
        lemma_skip_bounds(s, pos, junk_pred());
        if !(p1 < s.len() && s[p1] == '}') {
            lemma_property_advances(s, p1);
            let (res, p2) = spec_parse_property(s, p1);
            match res {
                Ok((n, v)) => lemma_decls_bounds(s, p2, sm_insert(props, n, v), errs),
                Err(e) => lemma_decls_bounds(s, p2, props, errs.push(e)),
            }
        }
    }
}

/// What parsing one rule from `pos` yields: its selector, its resolved
/// properties, the errors of its rejected declarations, and where it ends
/// (just past the closing `}`). An input exhausted before a selector
/// yields a rule that selects nothing.
pub open spec fn spec_parse_rule(s: Seq<char>, pos: int) -> (RuleV, Seq<CssError>, int) {
    let a = spec_skip(s, pos, space_pred());
    let b = spec_skip(s, a, not_selector_pred());
    if b >= s.len() {
        (empty_rule_v(), Seq::empty(), b)
    } else {
        let (sel, c) = spec_parse_selector(s, b);
        let d = spec_skip(s, c, not_letter_pred());
        let (props, errs, e) = spec_parse_decls(s, d, Seq::empty(), Seq::empty());
        let f = if e < s.len() {
            e + 1
        } else {
            e
        };
        (RuleV { selector: sel, properties: props }, errs, f)
    }
}

/// A rule always moves forward while input remains, and never runs past
/// the end.
pub proof fn lemma_rule_advances(s: Seq<char>, pos: int)
    requires
        0 <= pos <= s.len(),
    ensures
        pos <= spec_parse_rule(s, pos).2 <= s.len(),
        pos < s.len() ==> spec_parse_rule(s, pos).2 > pos,
{
    let a = spec_skip(s, pos, space_pred());
    lemma_skip_bounds(s, pos, space_pred());
    let b = spec_skip(s, a, not_selector_pred());
    lemma_skip_bounds(s, a, not_selector_pred());
    if b >= s.len() {
        if pos < s.len() {
            assert(b == s.len());
        }
    } else {
        let (sel, c) = spec_parse_selector(s, b);
        lemma_selector_bounds(s, b);
        assert(c > pos) by {
            assert(spec_skip(s, b, space_pred()) == b);
            assert(spec_skip(s, b, not_selector_pred()) == b);
            if s[b] == '.' || s[b] == '#' {
                lemma_skip_bounds(s, b + 1, until2_pred(' ', '{'));
            } else {
                lemma_skip_bounds(s, b, until2_pred(' ', '{'));
                assert(!spec_is_not_valid_selector(s[b]));
                assert((until2_pred(' ', '{'))(s[b]));
                assert(spec_skip(s, b, until2_pred(' ', '{')) == spec_skip(
                    s,
                    b + 1,
                    until2_pred(' ', '{'),
                ));
                lemma_skip_bounds(s, b + 1, until2_pred(' ', '{'));
            }
        }
        let d = spec_skip(s, c, not_letter_pred());
        lemma_skip_bounds(s, c, not_letter_pred());
        lemma_decls_bounds(s, d, Seq::empty(), Seq::empty());
    }
}

/// Where a selector ends, within bounds.
pub proof fn lemma_selector_bounds(s: Seq<char>, pos: int)
    requires
        0 <= pos <= s.len(),
    ensures
        pos <= spec_parse_selector(s, pos).1 <= s.len(),
{
    let a = spec_skip(s, pos, space_pred());
    lemma_skip_bounds(s, pos, space_pred());
    let b = spec_skip(s, a, not_selector_pred());
    lemma_skip_bounds(s, a, not_selector_pred());
    if b < s.len() && (s[b] == '.' || s[b] == '#') {
        lemma_skip_bounds(s, b + 1, until2_pred(' ', '{'));
    } else {
        lemma_skip_bounds(s, b, until2_pred(' ', '{'));
    }
}

/// What parsing rules from `pos` to the input's end accumulates.
pub open spec fn spec_parse_rules(s: Seq<char>, pos: int, rules: Seq<RuleV>, errs: Seq<CssError>) -> (
    Seq<RuleV>,
    Seq<CssError>,
)
    decreases s.len() - pos,
    via spec_parse_rules_dec
{
    if pos < 0 || pos >= s.len() {
        (rules, errs)
    } else {
        let (rule, errs1, pos1) = spec_parse_rule(s, pos);
        spec_parse_rules(s, pos1, rules.push(rule), errs + errs1)
    }
}

#[via_fn]
proof fn spec_parse_rules_dec(s: Seq<char>, pos: int, rules: Seq<RuleV>, errs: Seq<CssError>) {
    if !(pos < 0 || pos >= s.len()) {
        lemma_rule_advances(s, pos);
    }
}

/// What parsing a whole stylesheet from `pos` yields: every rule in
/// order, except that one trailing rule that selects and binds nothing
/// (the shape a trailing run of blanks leaves) is dropped.
pub open spec fn spec_parse_stylesheet(s: Seq<char>, pos: int) -> (Seq<RuleV>, Seq<CssError>) {
    let (rules, errs) = spec_parse_rules(s, pos, Seq::empty(), Seq::empty());
    if rules.len() > 0 && rules.last() == empty_rule_v() {
        (rules.drop_last(), errs)
    } else {
        (rules, errs)
    }
}

// ---------------------------------------------------------------------------
// The parser
// ---------------------------------------------------------------------------

/// A one-character-lookahead reader over stylesheet text that collects the
/// errors of rejected declarations as it goes.
pub struct CssParser<'a> {
    input: &'a str,
    pos: usize,
    errors: Vec<CssError>,
}

impl<'a> CssParser<'a> {
    /// The text being read.
    pub closed spec fn src(&self) -> Seq<char> {
        self.input@
    }

    /// How far the reader has come.
    pub closed spec fn at(&self) -> int {
        self.pos as int
    }

    /// The errors collected so far.
    pub closed spec fn errs(&self) -> Seq<CssError> {
        self.errors.deep_view()
    }

    /// The reader never stands past the input's end.
    pub open spec fn wf(&self) -> bool {
        0 <= self.at() <= self.src().len()
    }

    /// A reader at the start of `full_css`.
    pub fn new(full_css: &'a str) -> (r: CssParser<'a>)
        ensures
            r.src() == full_css@,
            r.at() == 0,
            r.errs() =~= Seq::<CssError>::empty(),
            r.wf(),
    {
        let r = CssParser { input: full_css, pos: 0, errors: Vec::new() };
        proof {
            assert(r.errs() =~= Seq::<CssError>::empty());
        }
        r
    }

    /// Whether the input is exhausted.
    fn at_end(&self) -> (r: bool)
        requires
            self.wf(),
        ensures
            r == (self.at() == self.src().len()),
    {
        self.pos == self.input.unicode_len()
    }

    /// Whether the next character is `c`.
    fn peek_is(&self, c: char) -> (r: bool)
        requires
            self.wf(),
        ensures
            r == (self.at() < self.src().len() && self.src()[self.at()] == c),
    {
        self.pos < self.input.unicode_len() && self.input.get_char(self.pos) == c
    }

    /// Steps over one character; nothing happens at the end.
    fn bump(&mut self)
        requires
            old(self).wf(),
        ensures
            final(self).src() == old(self).src(),
            final(self).errs() == old(self).errs(),
            final(self).at() == if old(self).at() < old(self).src().len() {
                old(self).at() + 1
            } else {
                old(self).at()
            },
            final(self).wf(),
    {
        if self.pos < self.input.unicode_len() {
            self.pos = self.pos + 1;
        }
    }

    /// Skips every space.
    #[verifier::loop_isolation(false)]
    fn skip_spaces(&mut self)
        requires
            old(self).wf(),
        ensures
            final(self).src() == old(self).src(),
            final(self).errs() == old(self).errs(),
            final(self).at() == spec_skip(old(self).src(), old(self).at(), space_pred()),
            final(self).wf(),
    {
        let len = self.input.unicode_len();
        while self.pos < len && is_space(self.input.get_char(self.pos))
            invariant
                self.wf(),
                self.src() == old(self).src(),
                self.errs() == old(self).errs(),
                spec_skip(old(self).src(), old(self).at(), space_pred()) == spec_skip(
                    self.src(),
                    self.at(),
                    space_pred(),
                ),
            decreases self.src().len() - self.at(),
        {
            self.pos = self.pos + 1;
        }
    }

    /// Skips everything that cannot start a selector.
    #[verifier::loop_isolation(false)]
    fn skip_not_selector(&mut self)
        requires
            old(self).wf(),
        ensures
            final(self).src() == old(self).src(),
            final(self).errs() == old(self).errs(),
            final(self).at() == spec_skip(old(self).src(), old(self).at(), not_selector_pred()),
            final(self).wf(),
    {
        let len = self.input.unicode_len();
        while self.pos < len && is_not_valid_selector(self.input.get_char(self.pos))
            invariant
                self.wf(),
                self.src() == old(self).src(),
                self.errs() == old(self).errs(),
                spec_skip(old(self).src(), old(self).at(), not_selector_pred()) == spec_skip(
                    self.src(),
                    self.at(),
                    not_selector_pred(),
                ),
            decreases self.src().len() - self.at(),
        {
            self.pos = self.pos + 1;
        }
    }

    /// Skips everything between declarations.
    #[verifier::loop_isolation(false)]
    fn skip_junk(&mut self)
        requires
            old(self).wf(),
        ensures
            final(self).src() == old(self).src(),
            final(self).errs() == old(self).errs(),
            final(self).at() == spec_skip(old(self).src(), old(self).at(), junk_pred()),
            final(self).wf(),
    {
        let len = self.input.unicode_len();
        while self.pos < len && is_closing_bracket_or_letter(self.input.get_char(self.pos))
            invariant
                self.wf(),
                self.src() == old(self).src(),
                self.errs() == old(self).errs(),
                spec_skip(old(self).src(), old(self).at(), junk_pred()) == spec_skip(
                    self.src(),
                    self.at(),
                    junk_pred(),
                ),
            decreases self.src().len() - self.at(),
        {
            self.pos = self.pos + 1;
        }
    }

    /// Skips everything before a property name.
    #[verifier::loop_isolation(false)]
    fn skip_not_letter(&mut self)
        requires
            old(self).wf(),
        ensures
            final(self).src() == old(self).src(),
            final(self).errs() == old(self).errs(),
            final(self).at() == spec_skip(old(self).src(), old(self).at(), not_letter_pred()),
            final(self).wf(),
    {
        let len = self.input.unicode_len();
        while self.pos < len && is_not_property_identifier(self.input.get_char(self.pos))
            invariant
                self.wf(),
                self.src() == old(self).src(),
                self.errs() == old(self).errs(),
                spec_skip(old(self).src(), old(self).at(), not_letter_pred()) == spec_skip(
                    self.src(),
                    self.at(),
                    not_letter_pred(),
                ),
            decreases self.src().len() - self.at(),
        {
            self.pos = self.pos + 1;
        }
    }

    /// Collects everything up to (not including) `stop` or the end.
    #[verifier::loop_isolation(false)]
    fn read_until(&mut self, stop: char) -> (r: String)
        requires
            old(self).wf(),
        ensures
            final(self).src() == old(self).src(),
            final(self).errs() == old(self).errs(),
            final(self).at() == spec_skip(old(self).src(), old(self).at(), until_pred(stop)),
            r@ == old(self).src().subrange(old(self).at(), final(self).at()),
            final(self).wf(),
    {
        let start = self.pos;
        let len = self.input.unicode_len();
        while self.pos < len && self.input.get_char(self.pos) != stop
            invariant
                self.wf(),
                start <= self.at(),
                self.src() == old(self).src(),
                self.errs() == old(self).errs(),
                spec_skip(old(self).src(), old(self).at(), until_pred(stop)) == spec_skip(
                    self.src(),
                    self.at(),
                    until_pred(stop),
                ),
            decreases self.src().len() - self.at(),
        {
            self.pos = self.pos + 1;
        }
        String::from_str(self.input.substring_char(start, self.pos))
    }

    /// Collects everything up to (not including) `a` or `b` or the end.
    #[verifier::loop_isolation(false)]
    fn read_until2(&mut self, a: char, b: char) -> (r: String)
        requires
            old(self).wf(),
        ensures
            final(self).src() == old(self).src(),
            final(self).errs() == old(self).errs(),
            final(self).at() == spec_skip(old(self).src(), old(self).at(), until2_pred(a, b)),
            r@ == old(self).src().subrange(old(self).at(), final(self).at()),
            final(self).wf(),
    {
        let start = self.pos;
        let len = self.input.unicode_len();
        while self.pos < len && self.input.get_char(self.pos) != a && self.input.get_char(self.pos)
            != b
            invariant
                self.wf(),
                start <= self.at(),
                self.src() == old(self).src(),
                self.errs() == old(self).errs(),
                spec_skip(old(self).src(), old(self).at(), until2_pred(a, b)) == spec_skip(
                    self.src(),
                    self.at(),
                    until2_pred(a, b),
                ),
            decreases self.src().len() - self.at(),
        {
            self.pos = self.pos + 1;
        }
        String::from_str(self.input.substring_char(start, self.pos))
    }

    /// Reads one selector: an optional leading `.` (class) or `#` (id),
    /// otherwise a bare tag name, up to a space or `{`.
    pub fn parse_selector(&mut self) -> (r: Selector)
        requires
            old(self).wf(),
        ensures
            final(self).src() == old(self).src(),
            final(self).errs() == old(self).errs(),
            (r.deep_view(), final(self).at()) == spec_parse_selector(
                old(self).src(),
                old(self).at(),
            ),
            final(self).wf(),
    {
        self.skip_spaces();
        self.skip_not_selector();
        if self.peek_is('.') {
            self.bump();
            let name = self.read_until2(' ', '{');
            Selector { tag_name: None, id: None, class: Some(name) }
        } else if self.peek_is('#') {
            self.bump();
            let name = self.read_until2(' ', '{');
            Selector { tag_name: None, id: Some(name), class: None }
        } else {
            let name = self.read_until2(' ', '{');
            Selector { tag_name: Some(name), id: None, class: None }
        }
    }

    /// Reads one `name: value` declaration and resolves it.
    pub fn parse_property(&mut self) -> (r: Result<(PropertyName, PropertyValue), CssError>)
        requires
            old(self).wf(),
        ensures
            final(self).src() == old(self).src(),
            final(self).errs() == old(self).errs(),
            ({
                let (res, p) = spec_parse_property(old(self).src(), old(self).at());
                final(self).at() == p && match (r, res) {
                    (Ok(rv), Ok(sv)) => (rv.0, rv.1.deep_view()) == sv,
                    (Err(re), Err(se)) => re == se,
                    _ => false,
                }
            }),
            final(self).wf(),
    {
        self.skip_spaces();
        let name = self.read_until(':');
        self.bump();
        self.skip_spaces();
        let value = self.read_until(';');
        CssParser::process_property_members(name, value)
    }

    /// Resolves a declaration's name and raw value to a typed property.
    pub fn process_property_members(name: String, value: String) -> (r: Result<
        (PropertyName, PropertyValue),
        CssError,
    >)
        ensures
            match (r, spec_process(name@, value@)) {
                (Ok(rv), Ok(sv)) => (rv.0, rv.1.deep_view()) == sv,
                (Err(re), Err(se)) => re == se,
                _ => false,
            },
    {
        let n = name.as_str();
        if str_eq(n, "color") {
            CssParser::color_prop(PropertyName::Color, value)
        } else if str_eq(n, "background-color") {
            CssParser::color_prop(PropertyName::BackgroundColor, value)
        } else if str_eq(n, "margin") {
            CssParser::length_prop(PropertyName::Margin, value)
        } else if str_eq(n, "margin-top") {
            CssParser::length_prop(PropertyName::MarginTop, value)
        } else if str_eq(n, "margin-bottom") {
            CssParser::length_prop(PropertyName::MarginBottom, value)
        } else if str_eq(n, "margin-left") {
            CssParser::length_prop(PropertyName::MarginLeft, value)
        } else if str_eq(n, "margin-right") {
            CssParser::length_prop(PropertyName::MarginRight, value)
        } else if str_eq(n, "padding") {
            CssParser::length_prop(PropertyName::Padding, value)
        } else if str_eq(n, "padding-top") {
            CssParser::length_prop(PropertyName::PaddingTop, value)
        } else if str_eq(n, "padding-bottom") {
            CssParser::length_prop(PropertyName::PaddingBottom, value)
        } else if str_eq(n, "padding-left") {
            CssParser::length_prop(PropertyName::PaddingLeft, value)
        } else if str_eq(n, "padding-right") {
            CssParser::length_prop(PropertyName::PaddingRight, value)
        } else if str_eq(n, "width") {
            CssParser::length_prop(PropertyName::Width, value)
        } else if str_eq(n, "height") {
            CssParser::length_prop(PropertyName::Height, value)
        } else if str_eq(n, "display") {
            Ok((PropertyName::Display, PropertyValue::Display(CssParser::parse_display(value))))
        } else {
            Ok((PropertyName::Other, PropertyValue::Other(value)))
        }
    }

    /// A color-valued declaration.
    fn color_prop(n: PropertyName, value: String) -> (r: Result<
        (PropertyName, PropertyValue),
        CssError,
    >)
        ensures
            match (r, spec_color_prop(n, value@)) {
                (Ok(rv), Ok(sv)) => (rv.0, rv.1.deep_view()) == sv,
                (Err(re), Err(se)) => re == se,
                _ => false,
            },
    {
        match CssParser::parse_color(value) {
            Ok(c) => Ok((n, PropertyValue::Color(c))),
            Err(e) => Err(e),
        }
    }

    /// A length-valued declaration.
    fn length_prop(n: PropertyName, value: String) -> (r: Result<
        (PropertyName, PropertyValue),
        CssError,
    >)
        ensures
            match (r, spec_length_prop(n, value@)) {
                (Ok(rv), Ok(sv)) => (rv.0, rv.1.deep_view()) == sv,
                (Err(re), Err(se)) => re == se,
                _ => false,
            },
    {
        match CssParser::parse_length(value) {
            Ok(l) => Ok((n, PropertyValue::Length(l))),
            Err(e) => Err(e),
        }
    }

    /// Reads a display keyword.
    pub fn parse_display(value: String) -> (r: DisplayType)
        ensures
            r == spec_parse_display(value@),
    {
        let v = value.as_str();
        if str_eq(v, "block") {
            DisplayType::Block
        } else if str_eq(v, "inline") {
            DisplayType::Inline
        } else {
            DisplayType::NoDisplay
        }
    }

    /// Reads a color value.
    pub fn parse_color(value: String) -> (r: Result<Color, CssError>)
        ensures
            match (r, spec_parse_color(value@)) {
                (Ok(rv), Ok(sv)) => rv.deep_view() == sv,
                (Err(re), Err(se)) => re == se,
                _ => false,
            },
    {
        let len = value.as_str().unicode_len();
        if len >= 1 && value.as_str().get_char(0) == '#' {
            match parse_hex_u32(value.as_str().substring_char(1, len)) {
                Some(h) => Ok(Color::Hex(h)),
                None => Err(CssError::BadHexColor),
            }
        } else if len >= 3 && value.as_str().get_char(0) == 'r' && value.as_str().get_char(1) == 'g'
            && value.as_str().get_char(2) == 'b' {
            Ok(Color::Rgb(0, 0, 0))
        } else {
            Ok(Color::Named(value))
        }
    }

    /// Reads a length value.
    pub fn parse_length(value: String) -> (r: Result<Length, CssError>)
        ensures
            match (r, spec_parse_length(value@)) {
                (Ok(rv), Ok(sv)) => rv == sv,
                (Err(re), Err(se)) => re == se,
                _ => false,
            },
    {
        let v = value.as_str();
        let len = v.unicode_len();
        if len >= 1 && v.get_char(len - 1) == '%' {
            match parse_u16(v.substring_char(0, len - 1)) {
                Some(n) => if n > 100 {
                    Err(CssError::PercentOutOfRange)
                } else {
                    Ok(Length::Percent(n as u8))
                },
                None => Err(CssError::BadNumber),
            }
        } else if len < 2 {
            Err(CssError::BadNumber)
        } else {
            match parse_i16(v.substring_char(0, len - 2)) {
                Some(n) => Ok(Length::Px(n)),
                None => Err(CssError::BadNumber),
            }
        }
    }

    /// Reads one rule: a selector, then declarations until `}`. Rejected
    /// declarations leave their errors behind and the rest of the rule is
    /// still read.
    #[verifier::loop_isolation(false)]
    pub fn parse_rule(&mut self) -> (r: Rule)
        requires
            old(self).wf(),
        ensures
            final(self).src() == old(self).src(),
            ({
                let (rule, errs, p) = spec_parse_rule(old(self).src(), old(self).at());
                r.deep_view() == rule && final(self).at() == p && final(self).errs() == old(
                    self,
                ).errs() + errs
            }),
            final(self).wf(),
    {
        let ghost s = self.src();
        let ghost pos0 = self.at();
        self.skip_spaces();
        self.skip_not_selector();
        if self.at_end() {
            proof {
                assert(old(self).errs() + Seq::<CssError>::empty() =~= old(self).errs());
            }
            return Rule::default();
        }
        let selector = self.parse_selector();
        self.skip_not_letter();
        let mut properties = StyleMap::new();
        let ghost errs0 = self.errs();
        let ghost d0 = self.at();
        let ghost goal = spec_parse_decls(s, d0, Seq::empty(), Seq::empty());
        proof {
            assert(errs0 == old(self).errs());
            assert(self.errs().subrange(errs0.len() as int, self.errs().len() as int) =~= Seq::<
                CssError,
            >::empty());
        }
        let len = self.input.unicode_len();
        while self.pos < len && self.input.get_char(self.pos) != '}'
            invariant
                self.wf(),
                self.src() == s,
                errs0.len() <= self.errs().len(),
                errs0 =~= self.errs().subrange(0, errs0.len() as int),
                spec_parse_decls(
                    s,
                    self.at(),
                    properties.deep_view(),
                    self.errs().subrange(errs0.len() as int, self.errs().len() as int),
                ) == goal,
                properties.wf(),
            decreases self.src().len() - self.at(),
        {
            let ghost at1 = self.at();
            let ghost props1 = properties.deep_view();
            let ghost mid1 = self.errs().subrange(errs0.len() as int, self.errs().len() as int);
            self.skip_junk();
            proof {
                lemma_skip_bounds(s, at1, junk_pred());
            }
            if self.pos < len && self.input.get_char(self.pos) == '}' {
                proof {
                    assert(spec_parse_decls(s, at1, props1, mid1) == (props1, mid1, self.at()));
                }
                break ;
            }
            let ghost p1 = self.at();
            proof {
                lemma_property_advances(s, p1);
                if p1 < s.len() {
                    assert(!(junk_pred())(s[p1]));
                    assert(spec_is_letter(s[p1]));
                    assert(s[p1] != ' ' && s[p1] != ':');
                    assert(spec_parse_property(s, p1).1 > p1);
                } else {
                    assert(p1 == s.len());
                    assert(p1 > at1);
                }
            }
            match self.parse_property() {
                Ok((n, v)) => {
                    properties.insert(n, v);
                },
                Err(e) => {
                    self.errors.push(e);
                    proof {
                        assert(errs0 =~= self.errs().subrange(0, errs0.len() as int));
                        assert(self.errs().subrange(errs0.len() as int, self.errs().len() as int)
                            =~= mid1.push(e));
                    }
                },
            }
            proof {
                assert(spec_parse_decls(s, at1, props1, mid1) == spec_parse_decls(
                    s,
                    self.at(),
                    properties.deep_view(),
                    self.errs().subrange(errs0.len() as int, self.errs().len() as int),
                ));
            }
        }
        proof {
            let mid = self.errs().subrange(errs0.len() as int, self.errs().len() as int);
            assert(spec_parse_decls(s, self.at(), properties.deep_view(), mid) == (
                properties.deep_view(),
                mid,
                self.at(),
            ));
        }
        self.bump();
        let r = Rule { selector, properties };
        proof {
            let (rule, errs, p) = spec_parse_rule(s, pos0);
            assert(old(self).errs() + self.errs().subrange(
                errs0.len() as int,
                self.errs().len() as int,
            ) =~= self.errs());
            assert(r.deep_view() == rule);
        }
        r
    }

    /// Reads rules until the input is exhausted, dropping one empty
    /// trailing rule where the input ends in blanks, and collecting the
    /// errors of every rejected declaration.
    #[verifier::loop_isolation(false)]
    pub fn parse_stylesheet(&mut self) -> (r: Stylesheet)
        requires
            old(self).wf(),
        ensures
            final(self).src() == old(self).src(),
            ({
                let (rules, errs) = spec_parse_stylesheet(old(self).src(), old(self).at());
                r.deep_view() == rules && final(self).errs() == old(self).errs() + errs
            }),
            final(self).wf(),
    {
        let ghost s = self.src();
        let ghost pos0 = self.at();
        let ghost errs0 = self.errs();
        let ghost goal = spec_parse_rules(s, pos0, Seq::empty(), Seq::empty());
        let mut stylesheet = Stylesheet::default();
        proof {
            assert(self.errs().subrange(errs0.len() as int, self.errs().len() as int) =~= Seq::<
                CssError,
            >::empty());
        }
        while !self.at_end()
            invariant
                self.wf(),
                self.src() == s,
                errs0.len() <= self.errs().len(),
                errs0 =~= self.errs().subrange(0, errs0.len() as int),
                spec_parse_rules(
                    s,
                    self.at(),
                    stylesheet.deep_view(),
                    self.errs().subrange(errs0.len() as int, self.errs().len() as int),
                ) == goal,
            decreases self.src().len() - self.at(),
        {
            let ghost at1 = self.at();
            let ghost rules1 = stylesheet.deep_view();
            let ghost mid1 = self.errs().subrange(errs0.len() as int, self.errs().len() as int);
            proof {
                lemma_rule_advances(s, at1);
            }
            let rule = self.parse_rule();
            stylesheet.rules.push(rule);
            proof {
                let (rulev, errs1, p1) = spec_parse_rule(s, at1);
                assert(stylesheet.deep_view() =~= rules1.push(rulev));
                assert(errs0 =~= self.errs().subrange(0, errs0.len() as int));
                assert(self.errs().subrange(errs0.len() as int, self.errs().len() as int) =~= mid1
                    + errs1);
            }
        }
        proof {
            let mid = self.errs().subrange(errs0.len() as int, self.errs().len() as int);
            assert(spec_parse_rules(s, self.at(), stylesheet.deep_view(), mid) == (
                stylesheet.deep_view(),
                mid,
            ));
        }
        if stylesheet.rules.len() > 0 {
            let n = stylesheet.rules.len();
            let last_is_empty = stylesheet.rules[n - 1].selector.tag_name.is_none()
                && stylesheet.rules[n - 1].selector.id.is_none() && stylesheet.rules[n
                - 1].selector.class.is_none() && stylesheet.rules[n - 1].properties.len() == 0;
            proof {
                let lastv = stylesheet.deep_view().last();
                if last_is_empty {
                    assert(lastv.properties =~= Seq::<(PropertyName, PropertyValueV)>::empty());
                    assert(lastv =~= empty_rule_v());
                } else {
                    assert(lastv != empty_rule_v()) by {
                        if lastv == empty_rule_v() {
                            assert(stylesheet.rules@[n - 1].selector.tag_name.deep_view()
                                is None);
                            assert(stylesheet.rules@[n - 1].properties.deep_view().len() == 0);
                        }
                    }
                }
            }
            if last_is_empty {
                stylesheet.rules.pop();
                proof {
                    assert(stylesheet.deep_view() =~= spec_parse_rules(
                        s,
                        pos0,
                        Seq::empty(),
                        Seq::empty(),
                    ).0.drop_last());
                }
            }
        }
        proof {
            let (rules, errs) = spec_parse_stylesheet(s, pos0);
            assert(old(self).errs() + self.errs().subrange(
                errs0.len() as int,
                self.errs().len() as int,
            ) =~= self.errs());
        }
        stylesheet
    }

    /// The errors collected by every rule read so far, in reading order.
    pub fn errors(&self) -> (r: &Vec<CssError>)
        ensures
            r.deep_view() == self.errs(),
    {
        &self.errors
    }
}

// ---------------------------------------------------------------------------
// Laws of the length grammar
// ---------------------------------------------------------------------------

/// A percentage text `v%` parses to `Percent(v)` exactly when `v` is at
/// most 100, and fails for every `v` above 100.
pub proof fn lemma_percent_parsing(v: nat)
    ensures
        v <= 100 ==> spec_parse_length(spec_dec(v).push('%')) == Ok::<
            Length,
            CssError,
        >(Length::Percent(v as u8)),
        v > 100 ==> spec_parse_length(spec_dec(v).push('%')) is Err,
{
    let ds = spec_dec(v);
    let s = ds.push('%');
    lemma_dec_form(v);
    assert(s.last() == '%');
    assert(s.subrange(0, s.len() - 1) =~= ds);
    if v <= 0xffff {
        lemma_parse_u16_dec(v);
    } else {
        assert(spec_parse_u16(ds) is None) by {
            assert(is_dec_digit(ds[0]));
            assert(ds[0] != '+');
            assert(ds.len() > 0 && ds == (if ds.len() > 0 && ds[0] == '+' {
                ds.subrange(1, ds.len() as int)
            } else {
                ds
            }));
        }
    }
}

/// Formatting `Px(n)` writes the decimal form of `n` followed by `px`,
/// and parsing that text gives `Px(n)` back.
pub proof fn lemma_px_round_trip(n: i16)
    ensures
        spec_length_str(Length::Px(n)) == spec_dec_int(n as int) + "px"@,
        spec_parse_length(spec_length_str(Length::Px(n))) == Ok::<Length, CssError>(Length::Px(n)),
{
    reveal_strlit("px");
    let ds = spec_dec_int(n as int);
    let s = ds + "px"@;
    assert("px"@.len() == 2);
    assert(s.len() == ds.len() + 2);
    if n >= 0 {
        lemma_dec_form(n as nat);
    } else {
        lemma_dec_form((-(n as int)) as nat);
    }
    assert(ds.len() >= 1);
    assert(s.last() == 'x');
    assert(s.len() >= 2);
    assert(s.subrange(0, s.len() - 2) =~= ds);
    lemma_parse_i16_dec(n);
}

} // verus!
