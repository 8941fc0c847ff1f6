use vstd::prelude::*;
use crate::ast::{
    first_descendant_in, preorder_first_seq, child_node, child_nodes, child_token, first_node, first_token, nodes_of_kind_upto,
    tokens_of_kind_upto, child_tokens,
};
use crate::ast_timestamp::Timestamp;
use crate::kind::SyntaxKind;
use crate::text::{chars_eq, chars_of};
use crate::tree::{GreenElement, GreenNode, GreenToken, seq_text};

verus! {

/// Whitespace as Unicode's `White_Space` property has it (`char::is_whitespace`).
pub open spec fn is_unicode_ws(c: char) -> bool {
    ('\u{9}' <= c && c <= '\u{d}') || c == ' ' || c == '\u{85}' || c == '\u{a0}' || c == '\u{1680}'
        || ('\u{2000}' <= c && c <= '\u{200a}') || c == '\u{2028}' || c == '\u{2029}' || c
        == '\u{202f}' || c == '\u{205f}' || c == '\u{3000}'
}

pub fn is_whitespace(c: char) -> (r: bool)
    ensures
        r == is_unicode_ws(c),
{
    ('\u{9}' <= c && c <= '\u{d}') || c == ' ' || c == '\u{85}' || c == '\u{a0}' || c == '\u{1680}'
        || ('\u{2000}' <= c && c <= '\u{200a}') || c == '\u{2028}' || c == '\u{2029}' || c
        == '\u{202f}' || c == '\u{205f}' || c == '\u{3000}'
}

/// The leftmost token under `e`, descending through first children.
pub open spec fn leftmost_token(e: GreenElement) -> Option<GreenToken>
    decreases e,
{
    match e {
        GreenElement::Token(t) => Some(t),
        GreenElement::Node(n) => if n.children@.len() == 0 {
            None
        } else {
            leftmost_token(n.children@[0])
        },
    }
}

pub fn first_token_of<'a>(e: &'a GreenElement) -> (r: Option<&'a GreenToken>)
    ensures
        match r {
            Some(t) => leftmost_token(*e) == Some(*t),
            None => leftmost_token(*e) is None,
        },
    decreases e,
{
    match e {
        GreenElement::Token(t) => Some(t),
        GreenElement::Node(n) => {
            if n.children.len() == 0 {
                None
            } else {
                first_token_of(&n.children[0])
            }
        },
    }
}

pub open spec fn comment_word() -> Seq<char> {
    seq!['C', 'O', 'M', 'M', 'E', 'N', 'T']
}

pub open spec fn archive_word() -> Seq<char> {
    seq!['A', 'R', 'C', 'H', 'I', 'V', 'E']
}

/// A title is commented when its first token is `TEXT` that is `COMMENT` or
/// starts with `COMMENT` and a whitespace character.
pub open spec fn title_commented(title: GreenNode) -> bool {
    match leftmost_token(GreenElement::Node(title)) {
        Some(t) => t.kind == SyntaxKind::TEXT && t.text@.len() >= 7 && t.text@.subrange(0, 7)
            == comment_word() && (t.text@.len() == 7 || is_unicode_ws(t.text@[7])),
        None => false,
    }
}

/// Some token among the children of `tags` has the text `ARCHIVE`.
pub open spec fn tags_archived(tags: GreenNode) -> bool {
    exists|i: int|
        0 <= i < tags.children@.len() && (#[trigger] tags.children@[i] matches GreenElement::Token(
            t,
        ) && t.text@ == archive_word())
}

/// A `HEADLINE` node.
pub struct Headline<'a> {
    pub syntax: &'a GreenNode,
}

/// A `HEADLINE_TITLE` node.
pub struct HeadlineTitle<'a> {
    pub syntax: &'a GreenNode,
}

/// A `HEADLINE_TAGS` node.
pub struct HeadlineTags<'a> {
    pub syntax: &'a GreenNode,
}

/// A `HEADLINE_PRIORITY` node.
pub struct HeadlinePriority<'a> {
    pub syntax: &'a GreenNode,
}

/// A `PLANNING` node.
pub struct Planning<'a> {
    pub syntax: &'a GreenNode,
}

pub open spec fn timestamp_kinds() -> Seq<SyntaxKind> {
    seq![SyntaxKind::TIMESTAMP_ACTIVE, SyntaxKind::TIMESTAMP_INACTIVE, SyntaxKind::TIMESTAMP_DIARY]
}

/// The timestamp of the planning entry of kind `k` of a headline: the first
/// timestamp under the first such entry of its `PLANNING` child.
pub open spec fn planning_timestamp(headline: GreenNode, k: SyntaxKind) -> Option<GreenNode> {
    match first_node(headline, SyntaxKind::PLANNING) {
        Some(p) => match first_node(p, k) {
            Some(e) => preorder_first_seq(e.children@, timestamp_kinds()),
            None => None,
        },
        None => None,
    }
}

/// A `PROPERTY_DRAWER` node.
pub struct PropertyDrawer<'a> {
    pub syntax: &'a GreenNode,
}

/// A `NODE_PROPERTY` node: one `:KEY: VALUE` line of a property drawer.
pub struct NodeProperty<'a> {
    pub syntax: &'a GreenNode,
}

/// A `SECTION` node.
pub struct Section<'a> {
    pub syntax: &'a GreenNode,
}

/// The `DOCUMENT` node.
pub struct Document<'a> {
    pub syntax: &'a GreenNode,
}

impl<'a> Headline<'a> {
    pub fn cast(node: &'a GreenNode) -> (r: Option<Headline<'a>>)
        ensures
            r is Some <==> node.kind == SyntaxKind::HEADLINE,
            r matches Some(h) ==> h.syntax == node,
    {
        if node.kind == SyntaxKind::HEADLINE {
            Some(Headline { syntax: node })
        } else {
            None
        }
    }

    /// The `HEADLINE_STARS` token.
    pub fn stars(&self) -> (r: Option<&'a GreenToken>)
        ensures
            match r {
                Some(t) => first_token(*self.syntax, SyntaxKind::HEADLINE_STARS) == Some(*t),
                None => first_token(*self.syntax, SyntaxKind::HEADLINE_STARS) is None,
            },
    {
        child_token(self.syntax, SyntaxKind::HEADLINE_STARS)
    }

    /// The level of this headline: the number of its stars.
    pub fn level(&self) -> (r: Option<usize>)
        ensures
            match first_token(*self.syntax, SyntaxKind::HEADLINE_STARS) {
                Some(t) => r == Some(t.text@.len() as usize),
                None => r is None,
            },
    {
        match self.stars() {
            Some(t) => Some(chars_of(t.text()).len()),
            None => None,
        }
    }

    /// The `HEADLINE_KEYWORD` token (`TODO`, `DONE`, ...).
    pub fn keyword(&self) -> (r: Option<&'a GreenToken>)
        ensures
            match r {
                Some(t) => first_token(*self.syntax, SyntaxKind::HEADLINE_KEYWORD) == Some(*t),
                None => first_token(*self.syntax, SyntaxKind::HEADLINE_KEYWORD) is None,
            },
    {
        child_token(self.syntax, SyntaxKind::HEADLINE_KEYWORD)
    }

    pub fn priority(&self) -> (r: Option<HeadlinePriority<'a>>)
        ensures
            match r {
                Some(p) => first_node(*self.syntax, SyntaxKind::HEADLINE_PRIORITY) == Some(*p.syntax),
                None => first_node(*self.syntax, SyntaxKind::HEADLINE_PRIORITY) is None,
            },
    {
        match child_node(self.syntax, SyntaxKind::HEADLINE_PRIORITY) {
            Some(n) => Some(HeadlinePriority { syntax: n }),
            None => None,
        }
    }

    pub fn title(&self) -> (r: Option<HeadlineTitle<'a>>)
        ensures
            match r {
                Some(t) => first_node(*self.syntax, SyntaxKind::HEADLINE_TITLE) == Some(*t.syntax),
                None => first_node(*self.syntax, SyntaxKind::HEADLINE_TITLE) is None,
            },
    {
        match child_node(self.syntax, SyntaxKind::HEADLINE_TITLE) {
            Some(n) => Some(HeadlineTitle { syntax: n }),
            None => None,
        }
    }

    pub fn tags(&self) -> (r: Option<HeadlineTags<'a>>)
        ensures
            match r {
                Some(t) => first_node(*self.syntax, SyntaxKind::HEADLINE_TAGS) == Some(*t.syntax),
                None => first_node(*self.syntax, SyntaxKind::HEADLINE_TAGS) is None,
            },
    {
        match child_node(self.syntax, SyntaxKind::HEADLINE_TAGS) {
            Some(n) => Some(HeadlineTags { syntax: n }),
            None => None,
        }
    }

    pub fn section(&self) -> (r: Option<Section<'a>>)
        ensures
            match r {
                Some(t) => first_node(*self.syntax, SyntaxKind::SECTION) == Some(*t.syntax),
                None => first_node(*self.syntax, SyntaxKind::SECTION) is None,
            },
    {
        match child_node(self.syntax, SyntaxKind::SECTION) {
            Some(n) => Some(Section { syntax: n }),
            None => None,
        }
    }

    pub fn planning(&self) -> (r: Option<Planning<'a>>)
        ensures
            match r {
                Some(t) => first_node(*self.syntax, SyntaxKind::PLANNING) == Some(*t.syntax),
                None => first_node(*self.syntax, SyntaxKind::PLANNING) is None,
            },
    {
        match child_node(self.syntax, SyntaxKind::PLANNING) {
            Some(n) => Some(Planning { syntax: n }),
            None => None,
        }
    }

    /// The property drawer right under the headline's line.
    pub fn properties(&self) -> (r: Option<PropertyDrawer<'a>>)
        ensures
            match r {
                Some(t) => first_node(*self.syntax, SyntaxKind::PROPERTY_DRAWER) == Some(*t.syntax),
                None => first_node(*self.syntax, SyntaxKind::PROPERTY_DRAWER) is None,
            },
    {
        match child_node(self.syntax, SyntaxKind::PROPERTY_DRAWER) {
            Some(n) => Some(PropertyDrawer { syntax: n }),
            None => None,
        }
    }

    /// This headline's closed timestamp, or `None` if not set.
    pub fn closed(&self) -> (r: Option<Timestamp<'a>>)
        ensures
            match r {
                Some(t) => planning_timestamp(*self.syntax, SyntaxKind::PLANNING_CLOSED) == Some(*t.syntax),
                None => planning_timestamp(*self.syntax, SyntaxKind::PLANNING_CLOSED) is None,
            },
    {
        self.planning_entry(SyntaxKind::PLANNING_CLOSED)
    }

    /// This headline's scheduled timestamp, or `None` if not set.
    pub fn scheduled(&self) -> (r: Option<Timestamp<'a>>)
        ensures
            match r {
                Some(t) => planning_timestamp(*self.syntax, SyntaxKind::PLANNING_SCHEDULED) == Some(*t.syntax),
                None => planning_timestamp(*self.syntax, SyntaxKind::PLANNING_SCHEDULED) is None,
            },
    {
        self.planning_entry(SyntaxKind::PLANNING_SCHEDULED)
    }

    /// This headline's deadline timestamp, or `None` if not set.
    pub fn deadline(&self) -> (r: Option<Timestamp<'a>>)
        ensures
            match r {
                Some(t) => planning_timestamp(*self.syntax, SyntaxKind::PLANNING_DEADLINE) == Some(*t.syntax),
                None => planning_timestamp(*self.syntax, SyntaxKind::PLANNING_DEADLINE) is None,
            },
    {
        self.planning_entry(SyntaxKind::PLANNING_DEADLINE)
    }

    fn planning_entry(&self, kind: SyntaxKind) -> (r: Option<Timestamp<'a>>)
        ensures
            match r {
                Some(t) => planning_timestamp(*self.syntax, kind) == Some(*t.syntax),
                None => planning_timestamp(*self.syntax, kind) is None,
            },
    {
        let planning = match child_node(self.syntax, SyntaxKind::PLANNING) {
            Some(p) => p,
            None => {
                return None;
            },
        };
        let entry = match child_node(planning, kind) {
            Some(e) => e,
            None => {
                return None;
            },
        };
        let kinds = [
            SyntaxKind::TIMESTAMP_ACTIVE,
            SyntaxKind::TIMESTAMP_INACTIVE,
            SyntaxKind::TIMESTAMP_DIARY,
        ];
        proof {
            assert(kinds@ == timestamp_kinds());
        }
        match first_descendant_in(&entry.children, &kinds) {
            Some(n) => Some(Timestamp { syntax: n }),
            None => None,
        }
    }

    /// The headlines nested directly under this one.
    pub fn headlines(&self) -> (r: Vec<Headline<'a>>)
        ensures
            r@.len() == nodes_of_kind_upto(
                self.syntax.children@,
                SyntaxKind::HEADLINE,
                self.syntax.children@.len() as int,
            ).len(),
            forall|i: int|
                0 <= i < r@.len() ==> *r@[i].syntax == #[trigger] nodes_of_kind_upto(
                    self.syntax.children@,
                    SyntaxKind::HEADLINE,
                    self.syntax.children@.len() as int,
                )[i],
    {
        headlines_of(self.syntax)
    }

    /// Whether the title starts with the `COMMENT` keyword.
    pub fn is_commented(&self) -> (r: bool)
        ensures
            r == match first_node(*self.syntax, SyntaxKind::HEADLINE_TITLE) {
                Some(title) => title_commented(title),
                None => false,
            },
    {
        match child_node(self.syntax, SyntaxKind::HEADLINE_TITLE) {
            None => false,
            Some(title) => {
                if title.children.len() == 0 {
                    return false;
                }
                match first_token_of(&title.children[0]) {
                    None => false,
                    Some(t) => {
                        if t.kind != SyntaxKind::TEXT {
                            return false;
                        }
                        let text = chars_of(t.text());
                        if text.len() < 7 {
                            return false;
                        }
                        let word = vec!['C', 'O', 'M', 'M', 'E', 'N', 'T'];
                        let head = crate::input::slice_range(text.as_slice(), 0, 7);
                        if !chars_eq(head, word.as_slice()) {
                            return false;
                        }
                        text.len() == 7 || is_whitespace(text[7])
                    },
                }
            },
        }
    }

    /// Whether one of the tags is `ARCHIVE`.
    pub fn is_archived(&self) -> (r: bool)
        ensures
            r == match first_node(*self.syntax, SyntaxKind::HEADLINE_TAGS) {
                Some(tags) => tags_archived(tags),
                None => false,
            },
    {
        match child_node(self.syntax, SyntaxKind::HEADLINE_TAGS) {
            None => false,
            Some(tags) => {
                let word = vec!['A', 'R', 'C', 'H', 'I', 'V', 'E'];
                let cs = &tags.children;
                let mut i: usize = 0;
                while i < cs.len()
                    invariant
                        cs@ == tags.children@,
                        first_node(*self.syntax, SyntaxKind::HEADLINE_TAGS) == Some(*tags),
                        word@ == archive_word(),
                        i <= cs@.len(),
                        forall|j: int| 0 <= j < i ==> !(#[trigger] cs@[j] matches GreenElement::Token(t) && t.text@ == archive_word()),
                    decreases cs@.len() - i,
                {
                    match &cs[i] {
                        GreenElement::Token(t) => {
                            if chars_eq(chars_of(t.text()).as_slice(), word.as_slice()) {
                                proof {
                                    assert(cs@[i as int] matches GreenElement::Token(u) && u.text@
                                        == archive_word());
                                }
                                return true;
                            }
                        },
                        GreenElement::Node(_) => {},
                    }
                    i = i + 1;
                }
                false
            },
        }
    }

    /// The text this headline covers.
    pub fn to_source(&self) -> (r: String)
        ensures
            r@ == seq_text(self.syntax.children@),
    {
        self.syntax.to_source()
    }
}

/// The `HEADLINE` children of `parent`.
pub fn headlines_of<'a>(parent: &'a GreenNode) -> (r: Vec<Headline<'a>>)
    ensures
        r@.len() == nodes_of_kind_upto(
            parent.children@,
            SyntaxKind::HEADLINE,
            parent.children@.len() as int,
        ).len(),
        forall|i: int|
            0 <= i < r@.len() ==> *r@[i].syntax == #[trigger] nodes_of_kind_upto(
                parent.children@,
                SyntaxKind::HEADLINE,
                parent.children@.len() as int,
            )[i],
{
    let ns = child_nodes(parent, SyntaxKind::HEADLINE);
    let mut out: Vec<Headline<'a>> = Vec::new();
    let mut i: usize = 0;
    while i < ns.len()
        invariant
            i <= ns@.len(),
            out@.len() == i,
            forall|j: int| 0 <= j < i ==> out@[j].syntax == ns@[j],
        decreases ns@.len() - i,
    {
        out.push(Headline { syntax: ns[i] });
        i = i + 1;
    }
    out
}

impl<'a> Planning<'a> {
    pub fn cast(node: &'a GreenNode) -> (r: Option<Planning<'a>>)
        ensures
            r is Some <==> node.kind == SyntaxKind::PLANNING,
            r matches Some(h) ==> h.syntax == node,
    {
        if node.kind == SyntaxKind::PLANNING {
            Some(Planning { syntax: node })
        } else {
            None
        }
    }
}

impl<'a> PropertyDrawer<'a> {
    pub fn cast(node: &'a GreenNode) -> (r: Option<PropertyDrawer<'a>>)
        ensures
            r is Some <==> node.kind == SyntaxKind::PROPERTY_DRAWER,
            r matches Some(h) ==> h.syntax == node,
    {
        if node.kind == SyntaxKind::PROPERTY_DRAWER {
            Some(PropertyDrawer { syntax: node })
        } else {
            None
        }
    }

    /// The properties, in order.
    pub fn iter(&self) -> (r: Vec<NodeProperty<'a>>)
        ensures
            r@.len() == nodes_of_kind_upto(
                self.syntax.children@,
                SyntaxKind::NODE_PROPERTY,
                self.syntax.children@.len() as int,
            ).len(),
            forall|i: int|
                0 <= i < r@.len() ==> *r@[i].syntax == #[trigger] nodes_of_kind_upto(
                    self.syntax.children@,
                    SyntaxKind::NODE_PROPERTY,
                    self.syntax.children@.len() as int,
                )[i],
    {
        let ns = child_nodes(self.syntax, SyntaxKind::NODE_PROPERTY);
        let mut out: Vec<NodeProperty<'a>> = Vec::new();
        let mut i: usize = 0;
        while i < ns.len()
            invariant
                i <= ns@.len(),
                out@.len() == i,
                forall|j: int| 0 <= j < i ==> out@[j].syntax == ns@[j],
            decreases ns@.len() - i,
        {
            out.push(NodeProperty { syntax: ns[i] });
            i = i + 1;
        }
        out
    }
}

impl<'a> NodeProperty<'a> {
    pub fn cast(node: &'a GreenNode) -> (r: Option<NodeProperty<'a>>)
        ensures
            r is Some <==> node.kind == SyntaxKind::NODE_PROPERTY,
            r matches Some(h) ==> h.syntax == node,
    {
        if node.kind == SyntaxKind::NODE_PROPERTY {
            Some(NodeProperty { syntax: node })
        } else {
            None
        }
    }

    /// The key: the first `TEXT` token.
    pub fn key(&self) -> (r: Option<&'a GreenToken>)
        ensures
            match r {
                Some(t) => first_token(*self.syntax, SyntaxKind::TEXT) == Some(*t),
                None => first_token(*self.syntax, SyntaxKind::TEXT) is None,
            },
    {
        child_token(self.syntax, SyntaxKind::TEXT)
    }

    /// The value: the second `TEXT` token, where the line has one.
    pub fn value(&self) -> (r: Option<&'a GreenToken>)
        ensures
            ({
                let ts = tokens_of_kind_upto(self.syntax.children@, SyntaxKind::TEXT, self.syntax.children@.len() as int);
                match r {
                    Some(t) => ts.len() >= 2 && *t == ts[1],
                    None => ts.len() < 2,
                }
            }),
    {
        let ts = child_tokens(self.syntax, SyntaxKind::TEXT);
        if ts.len() >= 2 {
            Some(ts[1])
        } else {
            None
        }
    }
}

impl<'a> HeadlineTitle<'a> {
    pub fn cast(node: &'a GreenNode) -> (r: Option<HeadlineTitle<'a>>)
        ensures
            r is Some <==> node.kind == SyntaxKind::HEADLINE_TITLE,
            r matches Some(h) ==> h.syntax == node,
    {
        if node.kind == SyntaxKind::HEADLINE_TITLE {
            Some(HeadlineTitle { syntax: node })
        } else {
            None
        }
    }

    /// The text of the title.
    pub fn to_source(&self) -> (r: String)
        ensures
            r@ == seq_text(self.syntax.children@),
    {
        self.syntax.to_source()
    }
}

impl<'a> HeadlineTags<'a> {
    pub fn cast(node: &'a GreenNode) -> (r: Option<HeadlineTags<'a>>)
        ensures
            r is Some <==> node.kind == SyntaxKind::HEADLINE_TAGS,
            r matches Some(h) ==> h.syntax == node,
    {
        if node.kind == SyntaxKind::HEADLINE_TAGS {
            Some(HeadlineTags { syntax: node })
        } else {
            None
        }
    }

    /// The `TEXT` tokens of the tags, leaving out colons and whitespace.
    pub fn iter(&self) -> (r: Vec<&'a GreenToken>)
        ensures
            r@.len() == tokens_of_kind_upto(
                self.syntax.children@,
                SyntaxKind::TEXT,
                self.syntax.children@.len() as int,
            ).len(),
            forall|i: int|
                0 <= i < r@.len() ==> *r@[i] == #[trigger] tokens_of_kind_upto(
                    self.syntax.children@,
                    SyntaxKind::TEXT,
                    self.syntax.children@.len() as int,
                )[i],
    {
        child_tokens(self.syntax, SyntaxKind::TEXT)
    }
}

impl<'a> HeadlinePriority<'a> {
    pub fn cast(node: &'a GreenNode) -> (r: Option<HeadlinePriority<'a>>)
        ensures
            r is Some <==> node.kind == SyntaxKind::HEADLINE_PRIORITY,
            r matches Some(h) ==> h.syntax == node,
    {
        if node.kind == SyntaxKind::HEADLINE_PRIORITY {
            Some(HeadlinePriority { syntax: node })
        } else {
            None
        }
    }

    /// The `TEXT` token between `[#` and `]`.
    pub fn text(&self) -> (r: Option<&'a GreenToken>)
        ensures
            match r {
                Some(t) => first_token(*self.syntax, SyntaxKind::TEXT) == Some(*t),
                None => first_token(*self.syntax, SyntaxKind::TEXT) is None,
            },
    {
        child_token(self.syntax, SyntaxKind::TEXT)
    }

    /// The priority's text.
    pub fn text_string(&self) -> (r: Option<String>)
        ensures
            match first_token(*self.syntax, SyntaxKind::TEXT) {
                Some(t) => r matches Some(s) && s@ == t.text@,
                None => r is None,
            },
    {
        match self.text() {
            Some(t) => Some(t.text.clone()),
            None => None,
        }
    }
}

impl<'a> Section<'a> {
    pub fn cast(node: &'a GreenNode) -> (r: Option<Section<'a>>)
        ensures
            r is Some <==> node.kind == SyntaxKind::SECTION,
            r matches Some(h) ==> h.syntax == node,
    {
        if node.kind == SyntaxKind::SECTION {
            Some(Section { syntax: node })
        } else {
            None
        }
    }

    /// The text of the section.
    pub fn to_source(&self) -> (r: String)
        ensures
            r@ == seq_text(self.syntax.children@),
    {
        self.syntax.to_source()
    }
}

impl<'a> Document<'a> {
    pub fn cast(node: &'a GreenNode) -> (r: Option<Document<'a>>)
        ensures
            r is Some <==> node.kind == SyntaxKind::DOCUMENT,
            r matches Some(h) ==> h.syntax == node,
    {
        if node.kind == SyntaxKind::DOCUMENT {
            Some(Document { syntax: node })
        } else {
            None
        }
    }

    /// The zeroth section: the content before the first headline.
    pub fn section(&self) -> (r: Option<Section<'a>>)
        ensures
            match r {
                Some(t) => first_node(*self.syntax, SyntaxKind::SECTION) == Some(*t.syntax),
                None => first_node(*self.syntax, SyntaxKind::SECTION) is None,
            },
    {
        match child_node(self.syntax, SyntaxKind::SECTION) {
            Some(n) => Some(Section { syntax: n }),
            None => None,
        }
    }

    /// The top-level headlines.
    pub fn headlines(&self) -> (r: Vec<Headline<'a>>)
        ensures
            r@.len() == nodes_of_kind_upto(
                self.syntax.children@,
                SyntaxKind::HEADLINE,
                self.syntax.children@.len() as int,
            ).len(),
            forall|i: int|
                0 <= i < r@.len() ==> *r@[i].syntax == #[trigger] nodes_of_kind_upto(
                    self.syntax.children@,
                    SyntaxKind::HEADLINE,
                    self.syntax.children@.len() as int,
                )[i],
    {
        headlines_of(self.syntax)
    }

    /// The text of the whole document.
    pub fn to_source(&self) -> (r: String)
        ensures
            r@ == seq_text(self.syntax.children@),
    {
        self.syntax.to_source()
    }
}

} // verus!
