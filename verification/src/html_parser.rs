//! Single-pass parsing of markup text into a forest of document nodes,
//! with one character of lookahead and no backtracking.
//!
//! Malformed input never fails: a close tag that does not match the
//! innermost open element is queued, and the element built meanwhile has
//! its children promoted to siblings (splice-up recovery); a malformed
//! comment collapses to an empty comment; a missing quote runs to the end
//! of the value's character class.

use vstd::prelude::*;
use crate::css_parser::{lemma_skip_bounds, spec_skip, until_pred, until2_pred};
use crate::dom::{AttrMap, ElementData, ElementDataV, Node, NodeTypeV, NodeType, NodeV, am_insert};
use crate::text::{is_ws, lower_of, lowercase, ws_char};

verus! {

// ---------------------------------------------------------------------------
// Character classes of the markup grammar
// ---------------------------------------------------------------------------

/// A tag-name character: an ASCII letter or digit.
pub open spec fn spec_is_tag_char(c: char) -> bool {
    ('0' <= c && c <= '9') || ('a' <= c && c <= 'z') || ('A' <= c && c <= 'Z')
}

/// Executable test for [`spec_is_tag_char`].
pub fn is_valid_tag_name(ch: char) -> (r: bool)
    ensures
        r == spec_is_tag_char(ch),
{
    ('0' <= ch && ch <= '9') || ('a' <= ch && ch <= 'z') || ('A' <= ch && ch <= 'Z')
}

/// A control character.
pub open spec fn spec_is_control(c: char) -> bool {
    c == '\u{7f}' || (c as int) <= 0x1f || ((c as int) >= 0x80 && (c as int) <= 0x9f)
}

/// Executable test for [`spec_is_control`].
pub fn is_control(ch: char) -> (r: bool)
    ensures
        r == spec_is_control(ch),
{
    ch == '\u{7f}' || ch <= '\u{1f}' || (ch >= '\u{80}' && ch <= '\u{9f}')
}

/// A character that can never appear in an attribute name.
pub open spec fn spec_is_excluded_name(c: char) -> bool {
    c == ' ' || c == '"' || c == '\'' || c == '>' || c == '/' || c == '='
}

/// Executable test for [`spec_is_excluded_name`].
pub fn is_excluded_name(c: char) -> (r: bool)
    ensures
        r == spec_is_excluded_name(c),
{
    c == ' ' || c == '"' || c == '\'' || c == '>' || c == '/' || c == '='
}

/// An attribute-name character.
pub open spec fn spec_is_attr_name_char(c: char) -> bool {
    !spec_is_excluded_name(c) && !spec_is_control(c)
}

/// Executable test for [`spec_is_attr_name_char`].
pub fn is_valid_attr_name(c: char) -> (r: bool)
    ensures
        r == spec_is_attr_name_char(c),
{
    !is_excluded_name(c) && !is_control(c)
}

/// An unquoted attribute-value character.
pub open spec fn spec_is_attr_value_char(c: char) -> bool {
    !(c == ' ' || c == '"' || c == '\'' || c == '=' || c == '<' || c == '>' || c == '`')
}

/// Executable test for [`spec_is_attr_value_char`].
pub fn is_valid_attr_value(c: char) -> (r: bool)
    ensures
        r == spec_is_attr_value_char(c),
{
    !(c == ' ' || c == '"' || c == '\'' || c == '=' || c == '<' || c == '>' || c == '`')
}

/// Skip every whitespace character.
pub open spec fn ws_pred() -> spec_fn(char) -> bool {
    |c: char| is_ws(c)
}

/// Skip every tag-name character.
pub open spec fn tag_pred() -> spec_fn(char) -> bool {
    |c: char| spec_is_tag_char(c)
}

/// Skip every character of a text word.
pub open spec fn text_word_pred() -> spec_fn(char) -> bool {
    |c: char| !is_ws(c) && c != '<'
}

/// Skip every attribute-name character.
pub open spec fn attr_name_pred() -> spec_fn(char) -> bool {
    |c: char| spec_is_attr_name_char(c)
}

/// Skip what follows an attribute value, up to a blank or `>`.
pub open spec fn attr_junk_pred() -> spec_fn(char) -> bool {
    |c: char| !is_ws(c) && c != '>'
}

/// Skip every unquoted attribute-value character.
pub open spec fn attr_value_pred() -> spec_fn(char) -> bool {
    |c: char| spec_is_attr_value_char(c)
}

// ---------------------------------------------------------------------------
// The markup grammar, node by node
// ---------------------------------------------------------------------------

/// An element node's view.
pub open spec fn element_node_v(
    tag: Seq<char>,
    attrs: Seq<(Seq<char>, Seq<char>)>,
    children: Seq<NodeV>,
) -> NodeV {
    NodeV {
        children,
        node_type: NodeTypeV::Element(ElementDataV { tag_name: tag, attributes: attrs }),
        styles: Seq::empty(),
    }
}

/// A text node's view.
pub open spec fn text_node_v(text: Seq<char>) -> NodeV {
    NodeV { children: Seq::empty(), node_type: NodeTypeV::Text(text), styles: Seq::empty() }
}

/// A comment node's view.
pub open spec fn comment_node_v(text: Seq<char>) -> NodeV {
    NodeV { children: Seq::empty(), node_type: NodeTypeV::Comment(text), styles: Seq::empty() }
}

/// What reading one attribute value from `pos` yields, and where it ends:
/// blanks are skipped, a quoted value runs to its quote, an unquoted one
/// to the end of its character class.
pub open spec fn spec_parse_attr_value(s: Seq<char>, pos: int) -> (Seq<char>, int) {
    let a = spec_skip(s, pos, ws_pred());
    if a < s.len() && (s[a] == '"' || s[a] == '\'') {
        let b = spec_skip(s, a + 1, until_pred(s[a]));
        (s.subrange(a + 1, b), if b < s.len() {
            b + 1
        } else {
            b
        })
    } else {
        let b = spec_skip(s, a, attr_value_pred());
        (s.subrange(a, b), b)
    }
}

/// Where an attribute value ends, within bounds.
pub proof fn lemma_attr_value_bounds(s: Seq<char>, pos: int)
    requires
        0 <= pos <= s.len(),
    ensures
        pos <= spec_parse_attr_value(s, pos).1 <= s.len(),
{
    let a = spec_skip(s, pos, ws_pred());
    lemma_skip_bounds(s, pos, ws_pred());
    if a < s.len() && (s[a] == '"' || s[a] == '\'') {
        lemma_skip_bounds(s, a + 1, until_pred(s[a]));
    } else {
        lemma_skip_bounds(s, a, attr_value_pred());
    }
}

/// What the attribute loop collects from `pos` until `>` or the input's
/// end: per attribute a lowercased name and, after `=`, a value. A
/// character that can start no attribute and is not `=` is stepped over.
/// The final position is just past the `>`.
pub open spec fn spec_parse_attrs(
    s: Seq<char>,
    pos: int,
    attrs: Seq<(Seq<char>, Seq<char>)>,
) -> (Seq<(Seq<char>, Seq<char>)>, int)
    decreases s.len() - pos,
    via spec_parse_attrs_dec
{
    if pos < 0 || pos >= s.len() || s[pos] == '>' {
        (attrs, if 0 <= pos < s.len() {
            pos + 1
        } else {
            pos
        })
    } else {
        let a = spec_skip(s, pos, ws_pred());
        let b = spec_skip(s, a, attr_name_pred());
        let name = lower_of(s.subrange(a, b));
        let c = spec_skip(s, b, ws_pred());
        let (value, d) = if c < s.len() && s[c] == '=' {
            let (v, d1) = spec_parse_attr_value(s, c + 1);
            let d2 = spec_skip(s, d1, attr_junk_pred());
            (v, spec_skip(s, d2, ws_pred()))
        } else {
            (Seq::<char>::empty(), c)
        };
        let attrs2 = am_insert(attrs, name, value);
        let next = if d > pos {
            d
        } else {
            pos + 1
        };
        spec_parse_attrs(s, next, attrs2)
    }
}

#[via_fn]
proof fn spec_parse_attrs_dec(s: Seq<char>, pos: int, attrs: Seq<(Seq<char>, Seq<char>)>) {
    if !(pos < 0 || pos >= s.len() || s[pos] == '>') {
        let a = spec_skip(s, pos, ws_pred());
        lemma_skip_bounds(s, pos, ws_pred());
        let b = spec_skip(s, a, attr_name_pred());
        lemma_skip_bounds(s, a, attr_name_pred());
        let c = spec_skip(s, b, ws_pred());
        lemma_skip_bounds(s, b, ws_pred());
        if c < s.len() && s[c] == '=' {
            lemma_attr_value_bounds(s, c + 1);
            let (v, d1) = spec_parse_attr_value(s, c + 1);
            lemma_skip_bounds(s, d1, attr_junk_pred());
            let d2 = spec_skip(s, d1, attr_junk_pred());
            lemma_skip_bounds(s, d2, ws_pred());
        }
    }
}

/// Where the attribute loop ends, within bounds.
pub proof fn lemma_attrs_bounds(s: Seq<char>, pos: int, attrs: Seq<(Seq<char>, Seq<char>)>)
    requires
        0 <= pos <= s.len(),
    ensures
        pos <= spec_parse_attrs(s, pos, attrs).1 <= s.len(),
    decreases s.len() - pos,
{
    if !(pos >= s.len() || s[pos] == '>') {
        let a = spec_skip(s, pos, ws_pred());
        lemma_skip_bounds(s, pos, ws_pred());
        let b = spec_skip(s, a, attr_name_pred());
        lemma_skip_bounds(s, a, attr_name_pred());
        let name = lower_of(s.subrange(a, b));
        let c = spec_skip(s, b, ws_pred());
        lemma_skip_bounds(s, b, ws_pred());
        let (value, d) = if c < s.len() && s[c] == '=' {
            let (v, d1) = spec_parse_attr_value(s, c + 1);
            lemma_attr_value_bounds(s, c + 1);
            let d2 = spec_skip(s, d1, attr_junk_pred());
            lemma_skip_bounds(s, d1, attr_junk_pred());
            lemma_skip_bounds(s, d2, ws_pred());
            (v, spec_skip(s, d2, ws_pred()))
        } else {
            (Seq::<char>::empty(), c)
        };
        let attrs2 = am_insert(attrs, name, value);
        let next = if d > pos {
            d
        } else {
            pos + 1
        };
        lemma_attrs_bounds(s, next, attrs2);
    }
}

/// What one text run collects from `pos`: words separated by runs of
/// whitespace, each run collapsed to one space, ending at `<` or the
/// input's end.
pub open spec fn spec_text_loop(s: Seq<char>, pos: int, acc: Seq<char>) -> (Seq<char>, int)
    decreases s.len() - pos,
    via spec_text_loop_dec
{
    if pos < 0 || pos >= s.len() || s[pos] == '<' {
        (acc, pos)
    } else {
        let a = spec_skip(s, pos, ws_pred());
        let acc1 = if a > pos {
            acc.push(' ')
        } else {
            acc
        };
        let b = spec_skip(s, a, text_word_pred());
        spec_text_loop(s, b, acc1 + s.subrange(a, b))
    }
}

#[via_fn]
proof fn spec_text_loop_dec(s: Seq<char>, pos: int, acc: Seq<char>) {
    if !(pos < 0 || pos >= s.len() || s[pos] == '<') {
        let a = spec_skip(s, pos, ws_pred());
        lemma_skip_bounds(s, pos, ws_pred());
        let b = spec_skip(s, a, text_word_pred());
        lemma_skip_bounds(s, a, text_word_pred());
        if a == pos {
            assert(!is_ws(s[pos]));
            assert((text_word_pred())(s[pos]));
        }
    }
}

/// What a text node holds, and where it ends.
pub open spec fn spec_parse_text(s: Seq<char>, pos: int) -> (Seq<char>, int) {
    spec_text_loop(s, pos, Seq::empty())
}

/// Where a text run ends, within bounds; it always moves when it does not
/// start at `<`.
pub proof fn lemma_text_bounds(s: Seq<char>, pos: int, acc: Seq<char>)
    requires
        0 <= pos <= s.len(),
    ensures
        pos <= spec_text_loop(s, pos, acc).1 <= s.len(),
        pos < s.len() && s[pos] != '<' ==> spec_text_loop(s, pos, acc).1 > pos,
    decreases s.len() - pos,
{
    if !(pos >= s.len() || s[pos] == '<') {
        let a = spec_skip(s, pos, ws_pred());
        lemma_skip_bounds(s, pos, ws_pred());
        let acc1 = if a > pos {
            acc.push(' ')
        } else {
            acc
        };
        let b = spec_skip(s, a, text_word_pred());
        lemma_skip_bounds(s, a, text_word_pred());
        if a == pos {
            assert(!is_ws(s[pos]));
            assert((text_word_pred())(s[pos]));
        }
        lemma_text_bounds(s, b, acc1 + s.subrange(a, b));
    }
}

/// The main loop of a comment's body: raw text accumulates until `-->`
/// closes the comment; a nested comment opener collapses the whole comment
/// to an empty one; stray `<`, `<!`, `-` runs are kept as written.
pub open spec fn spec_comment_loop(s: Seq<char>, pos: int, acc: Seq<char>) -> (Seq<char>, int)
    decreases s.len() - pos,
    via spec_comment_loop_dec
{
    if pos < 0 || pos >= s.len() {
        (acc, pos)
    } else {
        let b = spec_skip(s, pos, until2_pred('<', '-'));
        let acc1 = acc + s.subrange(pos, b);
        if b >= s.len() {
            (acc1, b)
        } else if s[b] == '<' {
            let p = b + 1;
            if p < s.len() && s[p] == '!' {
                let p2 = p + 1;
                if p2 < s.len() && s[p2] == '-' {
                    let p3 = p2 + 1;
                    if p3 < s.len() && s[p3] == '-' {
                        (Seq::empty(), spec_skip(s, p3, until_pred('>')))
                    } else {
                        spec_comment_loop(s, p3, acc1 + "<!-"@)
                    }
                } else if p2 < s.len() && s[p2] == ' ' {
                    let p3 = p2 + 1;
                    if p3 < s.len() && s[p3] == '-' {
                        let p4 = p3 + 1;
                        if p4 < s.len() && s[p4] == '-' {
                            let p5 = p4 + 1;
                            if p5 < s.len() && s[p5] == '-' {
                                let p6 = p5 + 1;
                                if p6 < s.len() && s[p6] == '>' {
                                    (Seq::empty(), p6 + 1)
                                } else {
                                    spec_comment_loop(s, p6, acc1 + "<! --"@)
                                }
                            } else {
                                spec_comment_loop(s, p5, acc1 + "<! -"@)
                            }
                        } else {
                            spec_comment_loop(s, p4, acc1 + "<! "@)
                        }
                    } else {
                        spec_comment_loop(s, p3, acc1)
                    }
                } else {
                    spec_comment_loop(s, p2, acc1 + "<!"@)
                }
            } else {
                spec_comment_loop(s, p, acc1 + "<"@)
            }
        } else {
            let p = b + 1;
            if p < s.len() && s[p] == '-' {
                let p2 = p + 1;
                if p2 < s.len() && s[p2] == '>' {
                    (acc1, p2 + 1)
                } else {
                    spec_comment_loop(s, p2, acc1 + "--"@)
                }
            } else {
                spec_comment_loop(s, p, acc1 + "-"@)
            }
        }
    }
}

#[via_fn]
proof fn spec_comment_loop_dec(s: Seq<char>, pos: int, acc: Seq<char>) {
    if !(pos < 0 || pos >= s.len()) {
        lemma_skip_bounds(s, pos, until2_pred('<', '-'));
    }
}

/// What a comment's content is, and where it ends, starting just past the
/// `<!`: two dashes must follow, else everything to the next `>` is
/// swallowed and the comment is empty; `-->` closes it, and its early and
/// spaced-out variants close it with the content dropped.
pub open spec fn spec_parse_comment(s: Seq<char>, pos: int) -> (Seq<char>, int)
    recommends
        0 <= pos <= s.len(),
{
    if pos < s.len() && s[pos] == '-' {
        let p1 = pos + 1;
        if p1 < s.len() && s[p1] == '-' {
            let p2 = p1 + 1;
            if p2 < s.len() && s[p2] == '>' {
                (Seq::empty(), p2 + 1)
            } else if p2 < s.len() && s[p2] == '-' {
                let p3 = p2 + 1;
                if p3 < s.len() && s[p3] == '>' {
                    (Seq::empty(), p3 + 1)
                } else {
                    spec_comment_loop(s, p3, seq!['-'])
                }
            } else {
                spec_comment_loop(s, p2, Seq::empty())
            }
        } else {
            (Seq::empty(), spec_skip(s, p1, until_pred('>')))
        }
    } else {
        (Seq::empty(), spec_skip(s, pos, until_pred('>')))
    }
}

/// Where a comment body ends, within bounds.
pub proof fn lemma_comment_loop_bounds(s: Seq<char>, pos: int, acc: Seq<char>)
    requires
        0 <= pos <= s.len(),
    ensures
        pos <= spec_comment_loop(s, pos, acc).1 <= s.len(),
    decreases s.len() - pos,
{
    if !(pos >= s.len()) {
        let b = spec_skip(s, pos, until2_pred('<', '-'));
        lemma_skip_bounds(s, pos, until2_pred('<', '-'));
        let acc1 = acc + s.subrange(pos, b);
        if b >= s.len() {
        } else if s[b] == '<' {
            let p = b + 1;
            if p < s.len() && s[p] == '!' {
                let p2 = p + 1;
                if p2 < s.len() && s[p2] == '-' {
                    let p3 = p2 + 1;
                    if p3 < s.len() && s[p3] == '-' {
                        lemma_skip_bounds(s, p3, until_pred('>'));
                    } else {
                        lemma_comment_loop_bounds(s, p3, acc1 + "<!-"@);
                    }
                } else if p2 < s.len() && s[p2] == ' ' {
                    let p3 = p2 + 1;
                    if p3 < s.len() && s[p3] == '-' {
                        let p4 = p3 + 1;
                        if p4 < s.len() && s[p4] == '-' {
                            let p5 = p4 + 1;
                            if p5 < s.len() && s[p5] == '-' {
                                let p6 = p5 + 1;
                                if !(p6 < s.len() && s[p6] == '>') {
                                    lemma_comment_loop_bounds(s, p6, acc1 + "<! --"@);
                                }
                            } else {
                                lemma_comment_loop_bounds(s, p5, acc1 + "<! -"@);
                            }
                        } else {
                            lemma_comment_loop_bounds(s, p4, acc1 + "<! "@);
                        }
                    } else {
                        lemma_comment_loop_bounds(s, p3, acc1);
                    }
                } else {
                    lemma_comment_loop_bounds(s, p2, acc1 + "<!"@);
                }
            } else {
                lemma_comment_loop_bounds(s, p, acc1 + "<"@);
            }
        } else {
            let p = b + 1;
            if p < s.len() && s[p] == '-' {
                let p2 = p + 1;
                if !(p2 < s.len() && s[p2] == '>') {
                    lemma_comment_loop_bounds(s, p2, acc1 + "--"@);
                }
            } else {
                lemma_comment_loop_bounds(s, p, acc1 + "-"@);
            }
        }
    }
}

/// Where a comment ends, within bounds.
pub proof fn lemma_comment_bounds(s: Seq<char>, pos: int)
    requires
        0 <= pos <= s.len(),
    ensures
        pos <= spec_parse_comment(s, pos).1 <= s.len(),
{
    if pos < s.len() && s[pos] == '-' {
        let p1 = pos + 1;
        if p1 < s.len() && s[p1] == '-' {
            let p2 = p1 + 1;
            if p2 < s.len() && s[p2] == '>' {
            } else if p2 < s.len() && s[p2] == '-' {
                let p3 = p2 + 1;
                if p3 < s.len() && s[p3] == '>' {
                } else {
                    lemma_comment_loop_bounds(s, p3, seq!['-']);
                }
            } else {
                lemma_comment_loop_bounds(s, p2, Seq::empty());
            }
        } else {
            lemma_skip_bounds(s, p1, until_pred('>'));
        }
    } else {
        lemma_skip_bounds(s, pos, until_pred('>'));
    }
}

/// What one element yields starting at its tag name (just past `<`): the
/// tag, its attributes, and children parsed until a close tag turns up.
pub open spec fn spec_parse_node(s: Seq<char>, pos: int, q: Seq<Seq<char>>) -> (
    NodeV,
    int,
    Seq<Seq<char>>,
)
    decreases s.len() - pos, 1int,
    via spec_parse_node_dec
{
    if pos < 0 || pos > s.len() {
        (element_node_v(Seq::empty(), Seq::empty(), Seq::empty()), pos, q)
    } else {
        let b = spec_skip(s, pos, tag_pred());
        let tag = s.subrange(pos, b);
        let (attrs, c) = spec_parse_attrs(s, b, Seq::empty());
        let (children, d, q2) = spec_parse_nodes(s, c, q);
        (element_node_v(tag, attrs, children), d, q2)
    }
}

#[via_fn]
proof fn spec_parse_node_dec(s: Seq<char>, pos: int, q: Seq<Seq<char>>) {
    if !(pos < 0 || pos > s.len()) {
        let b = spec_skip(s, pos, tag_pred());
        lemma_skip_bounds(s, pos, tag_pred());
        lemma_attrs_bounds(s, b, Seq::empty());
    }
}

/// The close-tag recovery step: a just-built element whose tag does not
/// match the oldest queued close-tag name has its children promoted to be
/// its siblings, and the name stays queued for the caller to resolve; a
/// matching element settles the name.
pub open spec fn spec_recover(node: NodeV, q: Seq<Seq<char>>) -> (Seq<NodeV>, Seq<Seq<char>>) {
    match node.node_type {
        NodeTypeV::Element(e) => if q.len() > 0 {
            if e.tag_name != q[0] {
                (seq![NodeV { children: Seq::empty(), ..node }] + node.children, q)
            } else {
                (seq![node], q.drop_first())
            }
        } else {
            (seq![node], q)
        },
        _ => (seq![node], q),
    }
}

/// What parsing nodes from `pos` yields: the sibling nodes up to (and
/// past) the first close tag, the position after it, and the queue of
/// close-tag names still waiting for their element. When a just-built
/// element's tag does not match the oldest queued name, the element's
/// children are promoted to be its siblings and the name is left queued:
/// the splice-up recovery for mismatched nesting.
pub open spec fn spec_parse_nodes(s: Seq<char>, pos: int, q: Seq<Seq<char>>) -> (
    Seq<NodeV>,
    int,
    Seq<Seq<char>>,
)
    decreases s.len() - pos, 0int,
    via spec_parse_nodes_dec
{
    if pos < 0 || pos >= s.len() {
        (Seq::empty(), pos, q)
    } else {
        let a = spec_skip(s, pos, ws_pred());
        if a < s.len() && s[a] == '<' {
            let p = a + 1;
            if p < s.len() && s[p] == '/' {
                let b = spec_skip(s, p + 1, ws_pred());
                let c = spec_skip(s, b, tag_pred());
                let name = s.subrange(b, c);
                let d = spec_skip(s, c, until_pred('>'));
                let e = if d < s.len() {
                    d + 1
                } else {
                    d
                };
                (Seq::empty(), e, q.push(name))
            } else if p < s.len() && s[p] == '!' {
                let (content, p2) = spec_parse_comment(s, p + 1);
                let rest = spec_parse_nodes(s, p2, q);
                (seq![comment_node_v(content)] + rest.0, rest.1, rest.2)
            } else {
                let (node, p2, q2) = spec_parse_node(s, p, q);
                let (front, q3) = spec_recover(node, q2);
                // an element always ends past its opening `<`; the guard
                // only witnesses that for the recursion measure
                let next = if pos < p2 <= s.len() {
                    p2
                } else {
                    pos + 1
                };
                let rest = spec_parse_nodes(s, next, q3);
                (front + rest.0, rest.1, rest.2)
            }
        } else {
            let (text, p2) = spec_parse_text(s, a);
            let rest = spec_parse_nodes(s, p2, q);
            (seq![text_node_v(text)] + rest.0, rest.1, rest.2)
        }
    }
}

#[via_fn]
proof fn spec_parse_nodes_dec(s: Seq<char>, pos: int, q: Seq<Seq<char>>) {
    if !(pos < 0 || pos >= s.len()) {
        let a = spec_skip(s, pos, ws_pred());
        lemma_skip_bounds(s, pos, ws_pred());
        if a < s.len() && s[a] == '<' {
            let p = a + 1;
            if p < s.len() && s[p] == '/' {
            } else if p < s.len() && s[p] == '!' {
                lemma_comment_bounds(s, p + 1);
            }
        } else {
            lemma_text_bounds(s, a, Seq::empty());
            if a == pos {
                assert(!is_ws(s[pos]));
            }
        }
    }
}

/// Parsing a node or a forest never moves backwards and never runs past
/// the input's end.
pub proof fn lemma_parse_node_bounds(s: Seq<char>, pos: int, q: Seq<Seq<char>>)
    requires
        0 <= pos <= s.len(),
    ensures
        pos <= spec_parse_node(s, pos, q).1 <= s.len(),
    decreases s.len() - pos, 1int,
{
    let b = spec_skip(s, pos, tag_pred());
    lemma_skip_bounds(s, pos, tag_pred());
    let (attrs, c) = spec_parse_attrs(s, b, Seq::empty());
    lemma_attrs_bounds(s, b, Seq::empty());
    lemma_parse_nodes_bounds(s, c, q);
}

/// See [`lemma_parse_node_bounds`].
pub proof fn lemma_parse_nodes_bounds(s: Seq<char>, pos: int, q: Seq<Seq<char>>)
    requires
        0 <= pos <= s.len(),
    ensures
        pos <= spec_parse_nodes(s, pos, q).1 <= s.len(),
    decreases s.len() - pos, 0int,
{
    if !(pos >= s.len()) {
        let a = spec_skip(s, pos, ws_pred());
        lemma_skip_bounds(s, pos, ws_pred());
        if a < s.len() && s[a] == '<' {
            let p = a + 1;
            if p < s.len() && s[p] == '/' {
                let b = spec_skip(s, p + 1, ws_pred());
                lemma_skip_bounds(s, p + 1, ws_pred());
                let c = spec_skip(s, b, tag_pred());
                lemma_skip_bounds(s, b, tag_pred());
                lemma_skip_bounds(s, c, until_pred('>'));
            } else if p < s.len() && s[p] == '!' {
                lemma_comment_bounds(s, p + 1);
                let (content, p2) = spec_parse_comment(s, p + 1);
                lemma_parse_nodes_bounds(s, p2, q);
            } else {
                let (node, p2, q2) = spec_parse_node(s, p, q);
                lemma_parse_node_bounds(s, p, q);
                let (front, q3) = spec_recover(node, q2);
                let next = if pos < p2 <= s.len() {
                    p2
                } else {
                    pos + 1
                };
                lemma_parse_nodes_bounds(s, next, q3);
            }
        } else {
            lemma_text_bounds(s, a, Seq::empty());
            let (text, p2) = spec_parse_text(s, a);
            if a == pos {
                assert(!is_ws(s[pos]));
            }
            lemma_parse_nodes_bounds(s, p2, q);
        }
    }
}

/// A freshly parsed element carries a well-formed (empty) style map at
/// every node, as the cascade's entry point expects.
pub proof fn lemma_parse_node_wf(s: Seq<char>, pos: int, q: Seq<Seq<char>>)
    requires
        0 <= pos <= s.len(),
    ensures
        crate::dom::node_wf(spec_parse_node(s, pos, q).0),
    decreases s.len() - pos, 1int,
{
    let b = spec_skip(s, pos, tag_pred());
    lemma_skip_bounds(s, pos, tag_pred());
    let (attrs, c) = spec_parse_attrs(s, b, Seq::empty());
    lemma_attrs_bounds(s, b, Seq::empty());
    lemma_parse_nodes_bounds(s, c, q);
    lemma_parse_nodes_wf(s, c, q);
    let (children, d, q2) = spec_parse_nodes(s, c, q);
    let node = element_node_v(s.subrange(pos, b), attrs, children);
    assert(crate::css::sm_wf(node.styles));
    assert(crate::dom::node_wf(node));
}

/// Every freshly parsed sibling tree carries well-formed (empty) style
/// maps throughout.
pub proof fn lemma_parse_nodes_wf(s: Seq<char>, pos: int, q: Seq<Seq<char>>)
    requires
        0 <= pos <= s.len(),
    ensures
        forall|i: int|
            0 <= i < spec_parse_nodes(s, pos, q).0.len() ==> crate::dom::node_wf(
                #[trigger] spec_parse_nodes(s, pos, q).0[i],
            ),
    decreases s.len() - pos, 0int,
{
    if !(pos >= s.len()) {
        let a = spec_skip(s, pos, ws_pred());
        lemma_skip_bounds(s, pos, ws_pred());
        if a < s.len() && s[a] == '<' {
            let p = a + 1;
            if p < s.len() && s[p] == '/' {
            } else if p < s.len() && s[p] == '!' {
                lemma_comment_bounds(s, p + 1);
                let (content, p2) = spec_parse_comment(s, p + 1);
                lemma_parse_nodes_bounds(s, p2, q);
                lemma_parse_nodes_wf(s, p2, q);
                let cn = comment_node_v(content);
                assert(crate::css::sm_wf(cn.styles));
                assert(crate::dom::node_wf(cn));
                let rest = spec_parse_nodes(s, p2, q);
                let out = spec_parse_nodes(s, pos, q).0;
                assert forall|i: int| 0 <= i < out.len() implies crate::dom::node_wf(
                    #[trigger] out[i],
                ) by {
                    if i > 0 {
                        assert(out[i] == rest.0[i - 1]);
                    }
                }
            } else {
                let (node, p2, q2) = spec_parse_node(s, p, q);
                lemma_parse_node_bounds(s, p, q);
                lemma_parse_node_wf(s, p, q);
                let (front, q3) = spec_recover(node, q2);
                assert forall|i: int| 0 <= i < front.len() implies crate::dom::node_wf(
                    #[trigger] front[i],
                ) by {
                    match node.node_type {
                        NodeTypeV::Element(e) => {
                            if q2.len() > 0 && e.tag_name != q2[0] {
                                if i == 0 {
                                    let emptied = NodeV { children: Seq::empty(), ..node };
                                    assert(crate::dom::node_wf(emptied));
                                } else {
                                    assert(front[i] == node.children[i - 1]);
                                }
                            }
                        },
                        _ => {},
                    }
                }
                let next = if pos < p2 <= s.len() {
                    p2
                } else {
                    pos + 1
                };
                lemma_parse_nodes_wf(s, next, q3);
                let rest = spec_parse_nodes(s, next, q3);
                let out = spec_parse_nodes(s, pos, q).0;
                assert forall|i: int| 0 <= i < out.len() implies crate::dom::node_wf(
                    #[trigger] out[i],
                ) by {
                    if i < front.len() {
                        assert(out[i] == front[i]);
                    } else {
                        assert(out[i] == rest.0[i - front.len()]);
                    }
                }
            }
        } else {
            lemma_text_bounds(s, a, Seq::empty());
            let (text, p2) = spec_parse_text(s, a);
            lemma_parse_nodes_wf(s, p2, q);
            let tn = text_node_v(text);
            assert(crate::css::sm_wf(tn.styles));
            assert(crate::dom::node_wf(tn));
            let rest = spec_parse_nodes(s, p2, q);
            let out = spec_parse_nodes(s, pos, q).0;
            assert forall|i: int| 0 <= i < out.len() implies crate::dom::node_wf(
                #[trigger] out[i],
            ) by {
                if i > 0 {
                    assert(out[i] == rest.0[i - 1]);
                }
            }
        }
    }
}

// ---------------------------------------------------------------------------
// The parser
// ---------------------------------------------------------------------------

/// Reading a list of sibling trees element by element.
pub proof fn lemma_nodes_view_push(ns: Seq<Node>, n: Node)
    ensures
        crate::dom::nodes_view(ns.push(n)) == crate::dom::nodes_view(ns).push(
            crate::dom::node_view(n),
        ),
{
    crate::dom::lemma_nodes_view(ns.push(n));
    crate::dom::lemma_nodes_view(ns);
    assert forall|i: int| 0 <= i < ns.len() + 1 implies crate::dom::nodes_view(ns.push(n))[i]
        == crate::dom::nodes_view(ns).push(crate::dom::node_view(n))[i] by {
        if i < ns.len() {
            assert(ns.push(n)[i] == ns[i]);
        } else {
            assert(ns.push(n)[i] == n);
        }
    }
    assert(crate::dom::nodes_view(ns.push(n)) =~= crate::dom::nodes_view(ns).push(
        crate::dom::node_view(n),
    ));
}

/// Reading a concatenation of sibling lists.
pub proof fn lemma_nodes_view_concat(a: Seq<Node>, b: Seq<Node>)
    ensures
        crate::dom::nodes_view(a + b) == crate::dom::nodes_view(a) + crate::dom::nodes_view(b),
{
    crate::dom::lemma_nodes_view(a + b);
    crate::dom::lemma_nodes_view(a);
    crate::dom::lemma_nodes_view(b);
    assert forall|i: int| 0 <= i < a.len() + b.len() implies crate::dom::nodes_view(a + b)[i] == (
    crate::dom::nodes_view(a) + crate::dom::nodes_view(b))[i] by {
        if i < a.len() {
            assert((a + b)[i] == a[i]);
        } else {
            assert((a + b)[i] == b[i - a.len()]);
        }
    }
    assert(crate::dom::nodes_view(a + b) =~= crate::dom::nodes_view(a) + crate::dom::nodes_view(
        b,
    ));
}

/// A one-character-lookahead reader over markup text, carrying the queue
/// of close-tag names that still wait for their element.
pub struct HtmlParser<'a> {
    input: &'a str,
    pos: usize,
    node_q: Vec<String>,
}

impl<'a> HtmlParser<'a> {
    /// The text being read.
    pub closed spec fn src(&self) -> Seq<char> {
        self.input@
    }

    /// How far the reader has come.
    pub closed spec fn at(&self) -> int {
        self.pos as int
    }

    /// The queued close-tag names, oldest first.
    pub closed spec fn queue(&self) -> Seq<Seq<char>> {
        self.node_q.deep_view()
    }

    /// The reader never stands past the input's end.
    pub open spec fn wf(&self) -> bool {
        0 <= self.at() <= self.src().len()
    }

    /// A reader at the start of `full_html` with nothing queued.
    pub fn new(full_html: &'a str) -> (r: HtmlParser<'a>)
        ensures
            r.src() == full_html@,
            r.at() == 0,
            r.queue() =~= Seq::<Seq<char>>::empty(),
            r.wf(),
    {
        let r = HtmlParser { input: full_html, pos: 0, node_q: Vec::new() };
        proof {
            assert(r.queue() =~= Seq::<Seq<char>>::empty());
        }
        r
    }

    /// Whether the input is exhausted.
    fn at_end(&self) -> (r: bool)
        requires
            self.wf(),
        ensures
            r == (self.at() == self.src().len()),
    {
        self.pos == self.input.unicode_len()
    }

    /// Whether the next character is `c`.
    fn peek_is(&self, c: char) -> (r: bool)
        requires
            self.wf(),
        ensures
            r == (self.at() < self.src().len() && self.src()[self.at()] == c),
    {
        self.pos < self.input.unicode_len() && self.input.get_char(self.pos) == c
    }

    /// Steps over one character; nothing happens at the end.
    fn bump(&mut self)
        requires
            old(self).wf(),
        ensures
            final(self).src() == old(self).src(),
            final(self).queue() == old(self).queue(),
            final(self).at() == if old(self).at() < old(self).src().len() {
                old(self).at() + 1
            } else {
                old(self).at()
            },
            final(self).wf(),
    {
        if self.pos < self.input.unicode_len() {
            self.pos = self.pos + 1;
        }
    }

    /// Skips every whitespace character.
    #[verifier::loop_isolation(false)]
    fn skip_ws(&mut self)
        requires
            old(self).wf(),
        ensures
            final(self).src() == old(self).src(),
            final(self).queue() == old(self).queue(),
            final(self).at() == spec_skip(old(self).src(), old(self).at(), ws_pred()),
            final(self).wf(),
    {
        let len = self.input.unicode_len();
        while self.pos < len && ws_char(self.input.get_char(self.pos))
            invariant
                self.wf(),
                self.src() == old(self).src(),
                self.queue() == old(self).queue(),
                spec_skip(old(self).src(), old(self).at(), ws_pred()) == spec_skip(
                    self.src(),
                    self.at(),
                    ws_pred(),
                ),
            decreases self.src().len() - self.at(),
        {
            self.pos = self.pos + 1;
        }
    }

    /// Skips up to (not including) `stop` or the end, dropping what it
    /// passes over.
    #[verifier::loop_isolation(false)]
    fn skip_until(&mut self, stop: char)
        requires
            old(self).wf(),
        ensures
            final(self).src() == old(self).src(),
            final(self).queue() == old(self).queue(),
            final(self).at() == spec_skip(old(self).src(), old(self).at(), until_pred(stop)),
            final(self).wf(),
    {
        let len = self.input.unicode_len();
        while self.pos < len && self.input.get_char(self.pos) != stop
            invariant
                self.wf(),
                self.src() == old(self).src(),
                self.queue() == old(self).queue(),
                spec_skip(old(self).src(), old(self).at(), until_pred(stop)) == spec_skip(
                    self.src(),
                    self.at(),
                    until_pred(stop),
                ),
            decreases self.src().len() - self.at(),
        {
            self.pos = self.pos + 1;
        }
    }

    /// Skips everything that follows an attribute value, up to a blank or
    /// `>`.
    #[verifier::loop_isolation(false)]
    fn skip_attr_junk(&mut self)
        requires
            old(self).wf(),
        ensures
            final(self).src() == old(self).src(),
            final(self).queue() == old(self).queue(),
            final(self).at() == spec_skip(old(self).src(), old(self).at(), attr_junk_pred()),
            final(self).wf(),
    {
        let len = self.input.unicode_len();
        while self.pos < len && !ws_char(self.input.get_char(self.pos)) && self.input.get_char(
            self.pos,
        ) != '>'
            invariant
                self.wf(),
                self.src() == old(self).src(),
                self.queue() == old(self).queue(),
                spec_skip(old(self).src(), old(self).at(), attr_junk_pred()) == spec_skip(
                    self.src(),
                    self.at(),
                    attr_junk_pred(),
                ),
            decreases self.src().len() - self.at(),
        {
            self.pos = self.pos + 1;
        }
    }

    /// Collects a run of tag-name characters.
    #[verifier::loop_isolation(false)]
    fn read_tag_name(&mut self) -> (r: String)
        requires
            old(self).wf(),
        ensures
            final(self).src() == old(self).src(),
            final(self).queue() == old(self).queue(),
            final(self).at() == spec_skip(old(self).src(), old(self).at(), tag_pred()),
            r@ == old(self).src().subrange(old(self).at(), final(self).at()),
            final(self).wf(),
    {
        let start = self.pos;
        let len = self.input.unicode_len();
        while self.pos < len && is_valid_tag_name(self.input.get_char(self.pos))
            invariant
                self.wf(),
                start <= self.at(),
                self.src() == old(self).src(),
                self.queue() == old(self).queue(),
                spec_skip(old(self).src(), old(self).at(), tag_pred()) == spec_skip(
                    self.src(),
                    self.at(),
                    tag_pred(),
                ),
            decreases self.src().len() - self.at(),
        {
            self.pos = self.pos + 1;
        }
        String::from_str(self.input.substring_char(start, self.pos))
    }

    /// Collects a run of attribute-name characters.
    #[verifier::loop_isolation(false)]
    fn read_attr_name(&mut self) -> (r: String)
        requires
            old(self).wf(),
        ensures
            final(self).src() == old(self).src(),
            final(self).queue() == old(self).queue(),
            final(self).at() == spec_skip(old(self).src(), old(self).at(), attr_name_pred()),
            r@ == old(self).src().subrange(old(self).at(), final(self).at()),
            final(self).wf(),
    {
        let start = self.pos;
        let len = self.input.unicode_len();
        while self.pos < len && is_valid_attr_name(self.input.get_char(self.pos))
            invariant
                self.wf(),
                start <= self.at(),
                self.src() == old(self).src(),
                self.queue() == old(self).queue(),
                spec_skip(old(self).src(), old(self).at(), attr_name_pred()) == spec_skip(
                    self.src(),
                    self.at(),
                    attr_name_pred(),
                ),
            decreases self.src().len() - self.at(),
        {
            self.pos = self.pos + 1;
        }
        String::from_str(self.input.substring_char(start, self.pos))
    }

    /// Collects a run of unquoted attribute-value characters.
    #[verifier::loop_isolation(false)]
    fn read_attr_value_run(&mut self) -> (r: String)
        requires
            old(self).wf(),
        ensures
            final(self).src() == old(self).src(),
            final(self).queue() == old(self).queue(),
            final(self).at() == spec_skip(old(self).src(), old(self).at(), attr_value_pred()),
            r@ == old(self).src().subrange(old(self).at(), final(self).at()),
            final(self).wf(),
    {
        let start = self.pos;
        let len = self.input.unicode_len();
        while self.pos < len && is_valid_attr_value(self.input.get_char(self.pos))
            invariant
                self.wf(),
                start <= self.at(),
                self.src() == old(self).src(),
                self.queue() == old(self).queue(),
                spec_skip(old(self).src(), old(self).at(), attr_value_pred()) == spec_skip(
                    self.src(),
                    self.at(),
                    attr_value_pred(),
                ),
            decreases self.src().len() - self.at(),
        {
            self.pos = self.pos + 1;
        }
        String::from_str(self.input.substring_char(start, self.pos))
    }

    /// Collects a run of text-word characters.
    #[verifier::loop_isolation(false)]
    fn read_text_word(&mut self) -> (r: String)
        requires
            old(self).wf(),
        ensures
            final(self).src() == old(self).src(),
            final(self).queue() == old(self).queue(),
            final(self).at() == spec_skip(old(self).src(), old(self).at(), text_word_pred()),
            r@ == old(self).src().subrange(old(self).at(), final(self).at()),
            final(self).wf(),
    {
        let start = self.pos;
        let len = self.input.unicode_len();
        while self.pos < len && !ws_char(self.input.get_char(self.pos)) && self.input.get_char(
            self.pos,
        ) != '<'
            invariant
                self.wf(),
                start <= self.at(),
                self.src() == old(self).src(),
                self.queue() == old(self).queue(),
                spec_skip(old(self).src(), old(self).at(), text_word_pred()) == spec_skip(
                    self.src(),
                    self.at(),
                    text_word_pred(),
                ),
            decreases self.src().len() - self.at(),
        {
            self.pos = self.pos + 1;
        }
        String::from_str(self.input.substring_char(start, self.pos))
    }

    /// Collects up to (not including) `stop` or the end.
    #[verifier::loop_isolation(false)]
    fn read_until(&mut self, stop: char) -> (r: String)
        requires
            old(self).wf(),
        ensures
            final(self).src() == old(self).src(),
            final(self).queue() == old(self).queue(),
            final(self).at() == spec_skip(old(self).src(), old(self).at(), until_pred(stop)),
            r@ == old(self).src().subrange(old(self).at(), final(self).at()),
            final(self).wf(),
    {
        let start = self.pos;
        let len = self.input.unicode_len();
        while self.pos < len && self.input.get_char(self.pos) != stop
            invariant
                self.wf(),
                start <= self.at(),
                self.src() == old(self).src(),
                self.queue() == old(self).queue(),
                spec_skip(old(self).src(), old(self).at(), until_pred(stop)) == spec_skip(
                    self.src(),
                    self.at(),
                    until_pred(stop),
                ),
            decreases self.src().len() - self.at(),
        {
            self.pos = self.pos + 1;
        }
        String::from_str(self.input.substring_char(start, self.pos))
    }

    /// Collects up to (not including) `a` or `b` or the end.
    #[verifier::loop_isolation(false)]
    fn read_until2(&mut self, a: char, b: char) -> (r: String)
        requires
            old(self).wf(),
        ensures
            final(self).src() == old(self).src(),
            final(self).queue() == old(self).queue(),
            final(self).at() == spec_skip(old(self).src(), old(self).at(), until2_pred(a, b)),
            r@ == old(self).src().subrange(old(self).at(), final(self).at()),
            final(self).wf(),
    {
        let start = self.pos;
        let len = self.input.unicode_len();
        while self.pos < len && self.input.get_char(self.pos) != a && self.input.get_char(self.pos)
            != b
            invariant
                self.wf(),
                start <= self.at(),
                self.src() == old(self).src(),
                self.queue() == old(self).queue(),
                spec_skip(old(self).src(), old(self).at(), until2_pred(a, b)) == spec_skip(
                    self.src(),
                    self.at(),
                    until2_pred(a, b),
                ),
            decreases self.src().len() - self.at(),
        {
            self.pos = self.pos + 1;
        }
        String::from_str(self.input.substring_char(start, self.pos))
    }

    /// Reads one attribute value: blanks, then a quoted run to its quote
    /// or an unquoted run to the end of its character class.
    pub fn parse_attr_value(&mut self) -> (r: String)
        requires
            old(self).wf(),
        ensures
            final(self).src() == old(self).src(),
            final(self).queue() == old(self).queue(),
            (r@, final(self).at()) == spec_parse_attr_value(old(self).src(), old(self).at()),
            final(self).wf(),
    {
        self.skip_ws();
        if self.peek_is('"') {
            self.bump();
            let v = self.read_until('"');
            self.bump();
            v
        } else if self.peek_is('\'') {
            self.bump();
            let v = self.read_until('\'');
            self.bump();
            v
        } else {
            self.read_attr_value_run()
        }
    }

    /// Reads attributes until `>`: names are lowercased; `=` introduces a
    /// value; a later binding of the same name replaces the earlier one. A
    /// character that can start no attribute and is not `=` is stepped
    /// over.
    #[verifier::loop_isolation(false)]
    pub fn parse_attributes(&mut self) -> (r: AttrMap)
        requires
            old(self).wf(),
        ensures
            final(self).src() == old(self).src(),
            final(self).queue() == old(self).queue(),
            (r.deep_view(), final(self).at()) == spec_parse_attrs(
                old(self).src(),
                old(self).at(),
                Seq::empty(),
            ),
            final(self).wf(),
    {
        let ghost s = self.src();
        let ghost pos0 = self.at();
        let ghost goal = spec_parse_attrs(s, pos0, Seq::<(Seq<char>, Seq<char>)>::empty());
        let mut attributes = AttrMap::new();
        let len = self.input.unicode_len();
        while self.pos < len && self.input.get_char(self.pos) != '>'
            invariant
                self.wf(),
                self.src() == s,
                self.queue() == old(self).queue(),
                spec_parse_attrs(s, self.at(), attributes.deep_view()) == goal,
            decreases self.src().len() - self.at(),
        {
            let start = self.pos;
            let ghost at1 = self.at();
            let ghost attrs1 = attributes.deep_view();
            self.skip_ws();
            let raw = self.read_attr_name();
            let name = lowercase(raw.as_str());
            self.skip_ws();
            let value: String = if self.peek_is('=') {
                self.bump();
                let v = self.parse_attr_value();
                self.skip_attr_junk();
                self.skip_ws();
                v
            } else {
                String::new()
            };
            proof {
                let a = spec_skip(s, at1, ws_pred());
                lemma_skip_bounds(s, at1, ws_pred());
                let b = spec_skip(s, a, attr_name_pred());
                lemma_skip_bounds(s, a, attr_name_pred());
                let c = spec_skip(s, b, ws_pred());
                lemma_skip_bounds(s, b, ws_pred());
                assert(name@ == lower_of(s.subrange(a, b)));
                if c < s.len() && s[c] == '=' {
                    lemma_attr_value_bounds(s, c + 1);
                    let (v2, d1) = spec_parse_attr_value(s, c + 1);
                    let d2 = spec_skip(s, d1, attr_junk_pred());
                    lemma_skip_bounds(s, d1, attr_junk_pred());
                    lemma_skip_bounds(s, d2, ws_pred());
                    assert(value@ == v2);
                    assert(self.at() == spec_skip(s, d2, ws_pred()));
                } else {
                    assert(value@ =~= Seq::<char>::empty());
                    assert(self.at() == c);
                }
            }
            attributes.insert(name, value);
            let ghost dpos = self.at();
            if self.pos == start {
                self.bump();
            }
            proof {
                assert(dpos >= at1);
                if dpos > at1 {
                    assert(self.at() == dpos);
                } else {
                    assert(self.at() == at1 + 1);
                }
                assert(spec_parse_attrs(s, at1, attrs1) == spec_parse_attrs(
                    s,
                    self.at(),
                    attributes.deep_view(),
                ));
            }
        }
        self.bump();
        attributes
    }

    /// Reads one text node: words separated by whitespace runs, each run
    /// collapsed to one space, ending at `<` or the input's end.
    #[verifier::loop_isolation(false)]
    pub fn parse_text_node(&mut self) -> (r: Node)
        requires
            old(self).wf(),
        ensures
            final(self).src() == old(self).src(),
            final(self).queue() == old(self).queue(),
            ({
                let (text, p) = spec_parse_text(old(self).src(), old(self).at());
                r.deep_view() == text_node_v(text) && final(self).at() == p
            }),
            final(self).wf(),
    {
        let ghost s = self.src();
        let ghost pos0 = self.at();
        let ghost goal = spec_text_loop(s, pos0, Seq::<char>::empty());
        let mut text_content = String::new();
        let len = self.input.unicode_len();
        proof {
            assert(text_content@ =~= Seq::<char>::empty());
        }
        while self.pos < len && self.input.get_char(self.pos) != '<'
            invariant
                self.wf(),
                self.src() == s,
                self.queue() == old(self).queue(),
                spec_text_loop(s, self.at(), text_content@) == goal,
            decreases self.src().len() - self.at(),
        {
            let start = self.pos;
            let ghost at1 = self.at();
            let ghost acc1 = text_content@;
            self.skip_ws();
            if self.pos > start {
                text_content.append(" ");
                proof {
                    reveal_strlit(" ");
                    assert(text_content@ =~= acc1.push(' '));
                }
            }
            let word = self.read_text_word();
            text_content.append(word.as_str());
            proof {
                lemma_skip_bounds(s, at1, ws_pred());
                let a = spec_skip(s, at1, ws_pred());
                lemma_skip_bounds(s, a, text_word_pred());
                let accm = if a > at1 {
                    acc1.push(' ')
                } else {
                    acc1
                };
                assert(text_content@ == accm + s.subrange(a, self.at()));
                assert(spec_text_loop(s, at1, acc1) == spec_text_loop(s, self.at(), text_content@));
                if a == at1 {
                    assert(!is_ws(s[at1]));
                    assert((text_word_pred())(s[at1]));
                    assert(self.at() > at1);
                }
            }
        }
        let r = Node::new(NodeType::Text(text_content), Vec::new());
        proof {
            assert(crate::dom::nodes_view(Seq::<Node>::empty()) =~= Seq::<NodeV>::empty());
            assert(r.deep_view() =~= text_node_v(spec_parse_text(s, pos0).0));
        }
        r
    }

    /// Builds an empty comment node.
    fn empty_comment() -> (r: Node)
        ensures
            r.deep_view() == comment_node_v(Seq::<char>::empty()),
    {
        let r = Node::new(NodeType::Comment(String::new()), Vec::new());
        proof {
            assert(crate::dom::nodes_view(Seq::<Node>::empty()) =~= Seq::<NodeV>::empty());
            assert(r.deep_view() =~= comment_node_v(Seq::<char>::empty()));
        }
        r
    }

    /// Reads one comment, assuming `<!` has just been consumed: two dashes
    /// must follow, else everything to the next `>` is swallowed and the
    /// comment is empty; `-->` closes it, while a nested opener or a
    /// spaced-out closer collapses the comment to an empty one.
    #[verifier::loop_isolation(false)]
    pub fn parse_comment_node(&mut self) -> (r: Node)
        requires
            old(self).wf(),
        ensures
            final(self).src() == old(self).src(),
            final(self).queue() == old(self).queue(),
            ({
                let (text, p) = spec_parse_comment(old(self).src(), old(self).at());
                r.deep_view() == comment_node_v(text) && final(self).at() == p
            }),
            final(self).wf(),
    {
        let ghost s = self.src();
        let ghost pos0 = self.at();
        let mut comment_content = String::new();
        proof {
            assert(comment_content@ =~= Seq::<char>::empty());
        }
        if self.peek_is('-') {
            self.bump();
            if self.peek_is('-') {
                self.bump();
            } else {
                self.skip_until('>');
                return HtmlParser::empty_comment();
            }
        } else {
            self.skip_until('>');
            return HtmlParser::empty_comment();
        }
        if self.peek_is('>') {
            self.bump();
            return HtmlParser::empty_comment();
        }
        if self.peek_is('-') {
            self.bump();
            if self.peek_is('>') {
                self.bump();
                return HtmlParser::empty_comment();
            } else {
                comment_content.append("-");
                proof {
                    reveal_strlit("-");
                    assert(comment_content@ =~= seq!['-']);
                }
            }
        }
        let ghost goal = spec_parse_comment(s, pos0);
        proof {
            assert(goal == spec_comment_loop(s, self.at(), comment_content@));
        }
        let len = self.input.unicode_len();
        while self.pos < len
            invariant
                self.wf(),
                self.src() == s,
                self.queue() == old(self).queue(),
                spec_comment_loop(s, self.at(), comment_content@) == goal,
            decreases self.src().len() - self.at(),
        {
            let ghost at1 = self.at();
            let ghost acc1 = comment_content@;
            let chunk = self.read_until2('<', '-');
            comment_content.append(chunk.as_str());
            let ghost b = self.at();
            let ghost accb = comment_content@;
            proof {
                lemma_skip_bounds(s, at1, until2_pred('<', '-'));
                assert(accb == acc1 + s.subrange(at1, b));
            }
            if self.peek_is('<') {
                self.bump();
                if self.peek_is('!') {
                    self.bump();
                    if self.peek_is('-') {
                        self.bump();
                        if self.peek_is('-') {
                            self.skip_until('>');
                            let r = HtmlParser::empty_comment();
                            proof {
                                assert(spec_comment_loop(s, at1, acc1) == (
                                    Seq::<char>::empty(),
                                    self.at(),
                                ));
                            }
                            return r;
                        } else {
                            comment_content.append("<!-");
                            proof {
                                reveal_strlit("<!-");
                                assert(comment_content@ =~= accb + "<!-"@);
                            }
                        }
                    } else if self.peek_is(' ') {
                        self.bump();
                        if self.peek_is('-') {
                            self.bump();
                            if self.peek_is('-') {
                                self.bump();
                                if self.peek_is('-') {
                                    self.bump();
                                    if self.peek_is('>') {
                                        self.bump();
                                        let r = HtmlParser::empty_comment();
                                        proof {
                                            assert(spec_comment_loop(s, at1, acc1) == (
                                                Seq::<char>::empty(),
                                                self.at(),
                                            ));
                                        }
                                        return r;
                                    } else {
                                        comment_content.append("<! --");
                                        proof {
                                            reveal_strlit("<! --");
                                            assert(comment_content@ =~= accb + "<! --"@);
                                        }
                                    }
                                } else {
                                    comment_content.append("<! -");
                                    proof {
                                        reveal_strlit("<! -");
                                        assert(comment_content@ =~= accb + "<! -"@);
                                    }
                                }
                            } else {
                                comment_content.append("<! ");
                                proof {
                                    reveal_strlit("<! ");
                                    assert(comment_content@ =~= accb + "<! "@);
                                }
                            }
                        }
                    } else {
                        comment_content.append("<!");
                        proof {
                            reveal_strlit("<!");
                            assert(comment_content@ =~= accb + "<!"@);
                        }
                    }
                } else {
                    comment_content.append("<");
                    proof {
                        reveal_strlit("<");
                        assert(comment_content@ =~= accb + "<"@);
                    }
                }
            } else if self.peek_is('-') {
                self.bump();
                if self.peek_is('-') {
                    self.bump();
                    if self.peek_is('>') {
                        self.bump();
                        let r = Node::new(NodeType::Comment(comment_content), Vec::new());
                        proof {
                            assert(spec_comment_loop(s, at1, acc1) == (accb, self.at()));
                            assert(crate::dom::nodes_view(Seq::<Node>::empty()) =~= Seq::<
                                NodeV,
                            >::empty());
                            assert(r.deep_view() =~= comment_node_v(accb));
                        }
                        return r;
                    } else {
                        comment_content.append("--");
                        proof {
                            reveal_strlit("--");
                            assert(comment_content@ =~= accb + "--"@);
                        }
                    }
                } else {
                    comment_content.append("-");
                    proof {
                        reveal_strlit("-");
                        assert(comment_content@ =~= accb + "-"@);
                    }
                }
            }
            proof {
                assert(spec_comment_loop(s, at1, acc1) == spec_comment_loop(
                    s,
                    self.at(),
                    comment_content@,
                ));
                assert(self.at() > at1);
            }
        }
        let r = Node::new(NodeType::Comment(comment_content), Vec::new());
        proof {
            assert(spec_comment_loop(s, self.at(), comment_content@) == (
                comment_content@,
                self.at(),
            ));
            assert(crate::dom::nodes_view(Seq::<Node>::empty()) =~= Seq::<NodeV>::empty());
            assert(r.deep_view() =~= comment_node_v(comment_content@));
        }
        r
    }

    /// Reads one element, assuming `<` has just been consumed: its tag
    /// name, its attributes, then children until a close tag turns up.
    pub fn parse_node(&mut self) -> (r: Node)
        requires
            old(self).wf(),
        ensures
            final(self).src() == old(self).src(),
            ({
                let (node, p, q2) = spec_parse_node(
                    old(self).src(),
                    old(self).at(),
                    old(self).queue(),
                );
                r.deep_view() == node && final(self).at() == p && final(self).queue() == q2
            }),
            crate::dom::node_wf(r.deep_view()),
            final(self).wf(),
        decreases old(self).src().len() - old(self).at(), 1int,
    {
        let ghost s = self.src();
        let ghost pos0 = self.at();
        let tagname = self.read_tag_name();
        proof {
            lemma_skip_bounds(s, pos0, tag_pred());
        }
        let attributes = self.parse_attributes();
        proof {
            lemma_attrs_bounds(s, spec_skip(s, pos0, tag_pred()), Seq::empty());
        }
        let elem = ElementData::new(tagname, attributes);
        let children = self.parse_nodes();
        let r = Node::new(NodeType::Element(elem), children);
        proof {
            let (node, p, q2) = spec_parse_node(s, pos0, old(self).queue());
            assert(r.deep_view() =~= node);
            lemma_parse_node_wf(s, pos0, old(self).queue());
        }
        r
    }

    /// Reads sibling nodes until a close tag or the input's end. A close
    /// tag queues its name and stops. A just-built element whose tag does
    /// not match the oldest queued name has its children promoted to be
    /// its siblings, the splice-up recovery for mismatched nesting.
    #[verifier::loop_isolation(false)]
    pub fn parse_nodes(&mut self) -> (r: Vec<Node>)
        requires
            old(self).wf(),
        ensures
            final(self).src() == old(self).src(),
            ({
                let (ns, p, q2) = spec_parse_nodes(
                    old(self).src(),
                    old(self).at(),
                    old(self).queue(),
                );
                crate::dom::nodes_view(r@) == ns && final(self).at() == p && final(self).queue()
                    == q2
            }),
            forall|i: int|
                0 <= i < r@.len() ==> crate::dom::node_wf((#[trigger] r@[i]).deep_view()),
            final(self).wf(),
        decreases old(self).src().len() - old(self).at(), 0int,
    {
        let ghost s = self.src();
        let ghost pos0 = self.at();
        let ghost q0 = self.queue();
        let ghost goal = spec_parse_nodes(s, pos0, q0);
        let mut nodes: Vec<Node> = Vec::new();
        proof {
            crate::dom::lemma_nodes_view(nodes@);
            assert(crate::dom::nodes_view(nodes@) =~= Seq::<NodeV>::empty());
        }
        let len = self.input.unicode_len();
        while self.pos < len
            invariant
                self.wf(),
                self.src() == s,
                pos0 <= self.at(),
                goal.0 == crate::dom::nodes_view(nodes@) + spec_parse_nodes(
                    s,
                    self.at(),
                    self.queue(),
                ).0,
                goal.1 == spec_parse_nodes(s, self.at(), self.queue()).1,
                goal.2 == spec_parse_nodes(s, self.at(), self.queue()).2,
            decreases self.src().len() - self.at(),
        {
            let ghost at1 = self.at();
            let ghost q1 = self.queue();
            let ghost nodes1 = nodes@;
            self.skip_ws();
            let ghost a = self.at();
            proof {
                lemma_skip_bounds(s, at1, ws_pred());
            }
            if self.peek_is('<') {
                self.bump();
                if self.peek_is('/') {
                    self.bump();
                    self.skip_ws();
                    let close_tag_name = self.read_tag_name();
                    self.skip_until('>');
                    self.bump();
                    self.node_q.push(close_tag_name);
                    proof {
                        assert(self.queue() =~= q1.push(close_tag_name@));
                        assert(spec_parse_nodes(s, at1, q1).0 =~= Seq::<NodeV>::empty());
                        assert(goal.0 =~= crate::dom::nodes_view(nodes@));
                        assert(goal.1 == self.at());
                        assert(goal.2 == self.queue());
                        lemma_parse_nodes_wf(s, pos0, q0);
                        crate::dom::lemma_nodes_view(nodes@);
                    }
                    return nodes;
                } else if self.peek_is('!') {
                    self.bump();
                    proof {
                        lemma_comment_bounds(s, a + 2);
                    }
                    let node = self.parse_comment_node();
                    nodes.push(node);
                    proof {
                        lemma_nodes_view_push(nodes1, node);
                        let (content, p2) = spec_parse_comment(s, a + 2);
                        assert(crate::dom::node_view(node) == comment_node_v(content));
                        let rest = spec_parse_nodes(s, self.at(), self.queue());
                        assert(spec_parse_nodes(s, at1, q1).0 == seq![comment_node_v(content)]
                            + rest.0);
                        assert(crate::dom::nodes_view(nodes1) + (seq![comment_node_v(content)]
                            + rest.0) =~= crate::dom::nodes_view(nodes@) + rest.0);
                    }
                } else {
                    proof {
                        lemma_parse_node_bounds(s, a + 1, q1);
                    }
                    let mut node = self.parse_node();
                    let ghost nodev = crate::dom::node_view(node);
                    let ghost q2 = self.queue();
                    let ghost p2 = self.at();
                    let mismatch: bool = if self.node_q.len() > 0 {
                        match &node.node_type {
                            NodeType::Element(e) => !crate::text::str_eq(
                                e.tag_name.as_str(),
                                self.node_q[0].as_str(),
                            ),
                            _ => false,
                        }
                    } else {
                        false
                    };
                    if mismatch {
                        let mut kids: Vec<Node> = Vec::new();
                        core::mem::swap(&mut kids, &mut node.children);
                        let ghost kidsv = kids@;
                        let ghost emptied = crate::dom::node_view(node);
                        nodes.push(node);
                        nodes.append(&mut kids);
                        proof {
                            assert(crate::dom::nodes_view(node.children@) =~= Seq::<NodeV>::empty());
                            assert(emptied =~= (NodeV { children: Seq::empty(), ..nodev }));
                            lemma_nodes_view_push(nodes1, node);
                            lemma_nodes_view_concat(nodes1.push(node), kidsv);
                            assert(crate::dom::nodes_view(kidsv) == nodev.children);
                            assert(nodes@ == nodes1.push(node) + kidsv);
                            assert(crate::dom::nodes_view(nodes@) =~= crate::dom::nodes_view(
                                nodes1,
                            ) + (seq![emptied] + nodev.children));
                        }
                    } else {
                        if self.node_q.len() > 0 {
                            let _removed = self.node_q.remove(0);
                            proof {
                                assert(self.queue() =~= q2.drop_first());
                            }
                        }
                        nodes.push(node);
                        proof {
                            lemma_nodes_view_push(nodes1, node);
                            assert(crate::dom::nodes_view(nodes@) =~= crate::dom::nodes_view(
                                nodes1,
                            ) + seq![nodev]);
                        }
                    }
                    proof {
                        let (front, q3) = spec_recover(nodev, q2);
                        assert(crate::dom::nodes_view(nodes@) == crate::dom::nodes_view(nodes1)
                            + front);
                        assert(self.queue() == q3);
                        assert(at1 < p2 <= s.len());
                        let rest = spec_parse_nodes(s, p2, q3);
                        assert(spec_parse_nodes(s, at1, q1).0 == front + rest.0);
                        assert(crate::dom::nodes_view(nodes1) + (front + rest.0)
                            =~= crate::dom::nodes_view(nodes@) + rest.0);
                    }
                }
            } else {
                proof {
                    lemma_text_bounds(s, a, Seq::empty());
                }
                let node = self.parse_text_node();
                nodes.push(node);
                proof {
                    lemma_nodes_view_push(nodes1, node);
                    let (text, p2) = spec_parse_text(s, a);
                    let rest = spec_parse_nodes(s, self.at(), self.queue());
                    assert(spec_parse_nodes(s, at1, q1).0 == seq![text_node_v(text)] + rest.0);
                    assert(crate::dom::nodes_view(nodes1) + (seq![text_node_v(text)] + rest.0)
                        =~= crate::dom::nodes_view(nodes@) + rest.0);
                    if a == at1 {
                        assert(!is_ws(s[at1]));
                    }
                    assert(self.at() > at1);
                }
            }
        }
        proof {
            assert(spec_parse_nodes(s, self.at(), self.queue()).0 =~= Seq::<NodeV>::empty());
            assert(goal.0 =~= crate::dom::nodes_view(nodes@));
            lemma_parse_nodes_wf(s, pos0, q0);
            crate::dom::lemma_nodes_view(nodes@);
        }
        nodes
    }

}


} // verus!
