use vstd::prelude::*;
use crate::combinator::all_space_tab;
use crate::kind::SyntaxKind;
use crate::tree::{GreenElement, GreenNode, elem_children, elem_text, is_node, is_token};

verus! {

/// A character allowed in a tag: ASCII letters and digits, `_`, `@`, `#`, `%`.
pub open spec fn is_tag_char(c: char) -> bool {
    ('a' <= c && c <= 'z') || ('A' <= c && c <= 'Z') || ('0' <= c && c <= '9') || c == '_' || c
        == '@' || c == '#' || c == '%'
}

pub open spec fn all_tag_chars(s: Seq<char>) -> bool {
    forall|i: int| 0 <= i < s.len() ==> is_tag_char(#[trigger] s[i])
}

/// A child of a `HEADLINE_TAGS` node: a `COLON`, a non-empty `TEXT` of tag
/// characters, or a non-empty `WHITESPACE` of spaces and tabs.
pub open spec fn tag_child_ok(e: GreenElement) -> bool {
    ||| is_token(e, SyntaxKind::COLON, seq![':'])
    ||| (e matches GreenElement::Token(t) && t.kind == SyntaxKind::TEXT && t.text@.len() > 0
        && all_tag_chars(t.text@))
    ||| (e matches GreenElement::Token(t) && t.kind == SyntaxKind::WHITESPACE && t.text@.len() > 0
        && all_space_tab(t.text@))
}

/// The level of a headline node: the length of its first child's text
/// (its `HEADLINE_STARS`).
pub open spec fn headline_level(e: GreenElement) -> int {
    if elem_children(e).len() > 0 {
        elem_text(elem_children(e)[0]).len() as int
    } else {
        0
    }
}

/// The structural rules every node of a parsed tree keeps, at every depth:
/// a `HEADLINE` has only `HEADLINE` children of a greater level, and a
/// `HEADLINE_TAGS` has only colons, tag text and blanks as children.
pub open spec fn well_formed(e: GreenElement) -> bool
    decreases e, 0int,
{
    match e {
        GreenElement::Token(_) => true,
        GreenElement::Node(n) => children_well_formed(n.kind, headline_level(e), n.children@),
    }
}

/// The children `cs` of a node of kind `k` and level `level` are well formed
/// and keep the rules of such a node.
pub open spec fn children_well_formed(k: SyntaxKind, level: int, cs: Seq<GreenElement>) -> bool
    decreases cs, 1int,
{
    if cs.len() == 0 {
        true
    } else {
        &&& children_well_formed(k, level, cs.drop_last())
        &&& well_formed(cs.last())
        &&& child_rule(k, level, cs.last())
    }
}

/// What a node of kind `k` and level `level` asks of each child.
pub open spec fn child_rule(k: SyntaxKind, level: int, c: GreenElement) -> bool {
    &&& k == SyntaxKind::HEADLINE_TAGS ==> tag_child_ok(c)
    &&& (k == SyntaxKind::HEADLINE && is_node(c, SyntaxKind::HEADLINE)) ==> headline_level(c) > level
}

pub open spec fn all_well_formed(cs: Seq<GreenElement>) -> bool {
    forall|i: int| 0 <= i < cs.len() ==> well_formed(#[trigger] cs[i])
}

pub proof fn lemma_children_push(k: SyntaxKind, level: int, cs: Seq<GreenElement>, e: GreenElement)
    requires
        children_well_formed(k, level, cs),
        well_formed(e),
        child_rule(k, level, e),
    ensures
        children_well_formed(k, level, cs.push(e)),
{
    assert(cs.push(e).drop_last() =~= cs);
}

pub proof fn lemma_children_all(k: SyntaxKind, level: int, cs: Seq<GreenElement>)
    requires
        forall|i: int| 0 <= i < cs.len() ==> well_formed(#[trigger] cs[i]) && child_rule(k, level, cs[i]),
    ensures
        children_well_formed(k, level, cs),
    decreases cs.len(),
{
    if cs.len() > 0 {
        lemma_children_all(k, level, cs.drop_last());
        assert(well_formed(cs[cs.len() - 1]));
    }
}

/// A node is well formed where each child is and keeps the node's rule.
pub proof fn lemma_node_well_formed(n: GreenNode)
    requires
        forall|i: int|
            0 <= i < n.children@.len() ==> well_formed(#[trigger] n.children@[i]) && child_rule(
                n.kind,
                headline_level(GreenElement::Node(n)),
                n.children@[i],
            ),
    ensures
        well_formed(GreenElement::Node(n)),
{
    lemma_children_all(n.kind, headline_level(GreenElement::Node(n)), n.children@);
}

/// Where `new` is `old` or `old` with one well-formed element appended, it
/// stays all well formed.
pub proof fn lemma_all_step(old: Seq<GreenElement>, new: Seq<GreenElement>)
    requires
        all_well_formed(old),
        new == old || (new.len() == old.len() + 1 && new.drop_last() == old && well_formed(new.last())),
    ensures
        all_well_formed(new),
{
    if new != old {
        assert forall|i: int| 0 <= i < new.len() implies well_formed(#[trigger] new[i]) by {
            if i < old.len() {
                assert(new[i] == new.drop_last()[i]);
            }
        }
    }
}

/// In a well-formed tree, every `TEXT` child of a `HEADLINE_TAGS` node is made
/// of tag characters only.
pub proof fn lemma_tag_text_alphabet(n: GreenNode, i: int)
    requires
        well_formed(GreenElement::Node(n)),
        n.kind == SyntaxKind::HEADLINE_TAGS,
        0 <= i < n.children@.len(),
        n.children@[i] matches GreenElement::Token(t) && t.kind == SyntaxKind::TEXT,
    ensures
        n.children@[i] matches GreenElement::Token(t) && all_tag_chars(t.text@),
{
    lemma_children_index(n.kind, headline_level(GreenElement::Node(n)), n.children@, i);
}

/// In a well-formed tree, every `HEADLINE` child of a `HEADLINE` node has a
/// greater level.
pub proof fn lemma_headline_nesting(n: GreenNode, i: int)
    requires
        well_formed(GreenElement::Node(n)),
        n.kind == SyntaxKind::HEADLINE,
        0 <= i < n.children@.len(),
        is_node(n.children@[i], SyntaxKind::HEADLINE),
    ensures
        headline_level(n.children@[i]) > headline_level(GreenElement::Node(n)),
        well_formed(n.children@[i]),
{
    lemma_children_index(n.kind, headline_level(GreenElement::Node(n)), n.children@, i);
}

pub proof fn lemma_children_index(k: SyntaxKind, level: int, cs: Seq<GreenElement>, i: int)
    requires
        children_well_formed(k, level, cs),
        0 <= i < cs.len(),
    ensures
        well_formed(cs[i]),
        child_rule(k, level, cs[i]),
    decreases cs.len(),
{
    if i < cs.len() - 1 {
        lemma_children_index(k, level, cs.drop_last(), i);
        assert(cs.drop_last()[i] == cs[i]);
    }
}

/// A node whose children are all tokens, of a kind that asks nothing of its
/// children, is well formed.
pub proof fn lemma_flat_well_formed(n: GreenNode)
    requires
        forall|i: int| 0 <= i < n.children@.len() ==> #[trigger] n.children@[i] is Token,
        n.kind != SyntaxKind::HEADLINE_TAGS,
        n.kind != SyntaxKind::HEADLINE,
    ensures
        well_formed(GreenElement::Node(n)),
{
    assert forall|i: int| 0 <= i < n.children@.len() implies well_formed(#[trigger] n.children@[i]) by {
        assert(n.children@[i] is Token);
    }
    lemma_node_well_formed(n);
}

/// A node of a kind that asks nothing of its children is well formed where
/// all its children are.
pub proof fn lemma_plain_well_formed(n: GreenNode)
    requires
        all_well_formed(n.children@),
        n.kind != SyntaxKind::HEADLINE_TAGS,
        n.kind != SyntaxKind::HEADLINE,
    ensures
        well_formed(GreenElement::Node(n)),
{
    lemma_node_well_formed(n);
}

/// As `lemma_plain_well_formed`, for an element.
pub proof fn lemma_plain_elem(e: GreenElement)
    requires
        e is Node,
        all_well_formed(elem_children(e)),
        crate::tree::elem_kind(e) != SyntaxKind::HEADLINE_TAGS,
        crate::tree::elem_kind(e) != SyntaxKind::HEADLINE,
    ensures
        well_formed(e),
{
    match e {
        GreenElement::Node(n) => lemma_plain_well_formed(n),
        GreenElement::Token(_) => {},
    }
}

/// An element whose children are all tokens, of a kind that asks nothing of
/// its children, is well formed.
pub proof fn lemma_tokens_elem(e: GreenElement)
    requires
        e is Node,
        forall|i: int| 0 <= i < elem_children(e).len() ==> #[trigger] elem_children(e)[i] is Token,
        crate::tree::elem_kind(e) != SyntaxKind::HEADLINE_TAGS,
        crate::tree::elem_kind(e) != SyntaxKind::HEADLINE,
    ensures
        well_formed(e),
{
    match e {
        GreenElement::Node(n) => lemma_flat_well_formed(n),
        GreenElement::Token(_) => {},
    }
}

/// A `HEADLINE_TAGS` element whose children are all tag children is well formed.
pub proof fn lemma_tags_elem(e: GreenElement)
    requires
        is_node(e, SyntaxKind::HEADLINE_TAGS),
        forall|i: int| 0 <= i < elem_children(e).len() ==> tag_child_ok(#[trigger] elem_children(e)[i]),
    ensures
        well_formed(e),
{
    match e {
        GreenElement::Node(n) => {
            assert(elem_children(e) == n.children@);
            assert forall|i: int| 0 <= i < n.children@.len() implies well_formed(#[trigger] n.children@[i]) by {
                assert(tag_child_ok(elem_children(e)[i]));
            }
            lemma_node_well_formed(n);
        },
        GreenElement::Token(_) => {},
    }
}

} // verus!
