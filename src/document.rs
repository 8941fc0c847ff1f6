use vstd::prelude::*;
use crate::ast::{first_descendant_in, preorder_first_seq};
use crate::ast_headline::Document;
use crate::combinator::blank_lines;
use crate::config::ParseConfig;
use crate::headline::{headline_line_slots, headline_node, line_facts, slots_match, star_count, starts_headline};
use crate::shape::headline_level;
use crate::combinator::{elem_offset, is_ascii_ws, lemma_elem_in_text, lemma_offsets_push};
use crate::section::{headline_line_at, lemma_line_at_shift};
use crate::shape::{all_well_formed, lemma_all_step, lemma_plain_well_formed, well_formed};
use crate::input::Input;
use crate::kind::SyntaxKind;
use crate::section::{section_body_ok, section_node, single_timestamp_paragraph};
use crate::tree::is_token;
use crate::timestamp::{lemma_timestamp_start, timestamp_len};
use crate::text::chars_of;
use crate::tree::{
    elem_children, GreenElement, GreenNode, elem_text, is_node, lemma_seq_text_push, lemma_seq_token_len_sum,
    seq_text, seq_token_len_sum, lemma_seq_token_byte_sum, seq_token_byte_sum,
};
use vstd::utf8::encode_utf8;

verus! {

/// The children `cs` of a document are one section holding one paragraph
/// holding exactly one timestamp, whose text is `t`.
pub open spec fn single_timestamp_document(cs: Seq<GreenElement>, t: Seq<char>) -> bool {
    &&& cs.len() == 1
    &&& is_node(cs[0], SyntaxKind::SECTION)
    &&& single_timestamp_paragraph(elem_children(cs[0]), t)
}

/// `e` is what `headline_node` makes of the text `t`: a `HEADLINE` whose
/// first child is the stars `t` starts with, of that level, holding the
/// line's keyword, priority, title and tags, its first children being
/// exactly the slots of that line.
pub open spec fn headline_shape(e: GreenElement, c: &ParseConfig, t: Seq<char>) -> bool {
    &&& starts_headline(t)
    &&& is_node(e, SyntaxKind::HEADLINE)
    &&& elem_children(e).len() > 0
    &&& is_token(elem_children(e)[0], SyntaxKind::HEADLINE_STARS, t.subrange(0, star_count(t) as int))
    &&& headline_level(e) == star_count(t)
    &&& line_facts(elem_children(e), c, t)
    &&& elem_children(e).len() >= headline_line_slots(c, t).len()
    &&& slots_match(
        elem_children(e).subrange(0, headline_line_slots(c, t).len() as int),
        headline_line_slots(c, t),
    )
}

/// A child of a document that starts at `a` in its text `s`: a headline
/// parsed from there, or a blank line or section in which no headline starts.
pub open spec fn doc_child_ok(e: GreenElement, c: &ParseConfig, s: Seq<char>, a: int) -> bool {
    &&& elem_text(e).len() > 0
    &&& {
        ||| headline_shape(e, c, s.subrange(a, s.len() as int))
        ||| ((((is_node(e, SyntaxKind::SECTION) && section_body_ok(elem_children(e))) || (e matches GreenElement::Token(t) && t.kind
            == SyntaxKind::BLANK_LINE))) && forall|q: int|
            a <= q < a + elem_text(e).len() ==> !headline_line_at(s, q))
    }
}

/// Parses a whole document: leading blank lines, the zeroth section, then
/// headlines. Every character of the input ends up in the tree.
pub fn document_node(input: Input) -> (r: GreenNode)
    ensures
        r.kind == SyntaxKind::DOCUMENT,
        seq_text(r.children@) == input.s@,
        well_formed(GreenElement::Node(r)),
        timestamp_len(input.s@) == Some(input.s@.len() as int) ==> single_timestamp_document(
            r.children@,
            input.s@,
        ),
        forall|i: int|
            0 <= i < r.children@.len() ==> doc_child_ok(
                #[trigger] r.children@[i],
                input.c,
                input.s@,
                elem_offset(r.children@, i),
            ),
{
    proof {
        if timestamp_len(input.s@) == Some(input.s@.len() as int) {
            lemma_timestamp_start(input.s@);
        }
    }
    let (rest, mut children) = blank_lines(input);
    proof {
        assert forall|i: int| 0 <= i < children@.len() implies well_formed(#[trigger] children@[i]) by {
            assert(children@[i] is Token);
        }
        assert forall|i: int| 0 <= i < children@.len() implies doc_child_ok(
            #[trigger] children@[i],
            input.c,
            input.s@,
            elem_offset(children@, i),
        ) by {
            let a = elem_offset(children@, i);
            let t = elem_text(children@[i]);
            lemma_elem_in_text(children@, i);
            assert forall|q: int| a <= q < a + t.len() implies !headline_line_at(input.s@, q) by {
                assert(seq_text(children@).subrange(a, a + t.len())[q - a] == seq_text(children@)[q]);
                assert(input.s@[q] == seq_text(children@)[q]);
                assert(t[q - a] == input.s@[q]);
                assert(is_ascii_ws(t[q - a]));
                if headline_line_at(input.s@, q) {
                    let u = input.s@.subrange(q, input.s@.len() as int);
                    assert(u[0] == input.s@[q]);
                }
            }
        }
    }
    let mut cur = rest;
    match section_node(cur) {
        Some((i, sec)) => {
            proof {
                let a = seq_text(children@).len() as int;
                assert(cur.s@ =~= input.s@.subrange(a, input.s@.len() as int));
                assert forall|q: int| a <= q < a + elem_text(sec).len() implies !headline_line_at(input.s@, q) by {
                    if headline_line_at(input.s@, q) {
                        lemma_line_at_shift(input.s@, a, cur.s@, q - a);
                    }
                }
                assert(children@.subrange(0, children@.len() as int) =~= children@);
                assert forall|k: int| 0 <= k < children@.len() + 1 implies doc_child_ok(
                    #[trigger] children@.push(sec)[k],
                    input.c,
                    input.s@,
                    elem_offset(children@.push(sec), k),
                ) by {
                    lemma_offsets_push(children@, sec, k);
                    if k < children@.len() {
                        assert(children@.push(sec)[k] == children@[k]);
                    } else {
                        assert(children@.push(sec)[k] == sec);
                        assert(elem_offset(children@, k) == a);
                    }
                }
                lemma_seq_text_push(children@, sec);
                assert(children@.push(sec).drop_last() =~= children@);
                lemma_all_step(children@, children@.push(sec));
            }
            children.push(sec);
            cur = i;
            proof {
                if timestamp_len(input.s@) == Some(input.s@.len() as int) {
                    assert(children@ =~= seq![sec]);
                    assert(single_timestamp_document(children@, input.s@));
                }
            }
        },
        None => {},
    }
    while !cur.is_empty()
        invariant
            input.s@ == seq_text(children@) + cur.s@,
            cur.c == input.c,
            cur.s@.len() == 0 || starts_headline(cur.s@),
            all_well_formed(children@),
            timestamp_len(input.s@) == Some(input.s@.len() as int) ==> cur.s@.len() == 0
                && single_timestamp_document(children@, input.s@),
            forall|k: int|
                0 <= k < children@.len() ==> doc_child_ok(
                    #[trigger] children@[k],
                    input.c,
                    input.s@,
                    elem_offset(children@, k),
                ),
        decreases cur.s@.len(),
    {
        match headline_node(cur) {
            Some((i, h)) => {
                proof {
                    let a = seq_text(children@).len() as int;
                    assert(cur.s@ =~= input.s@.subrange(a, input.s@.len() as int));
                    assert(children@.subrange(0, children@.len() as int) =~= children@);
                    assert forall|k: int| 0 <= k < children@.len() + 1 implies doc_child_ok(
                        #[trigger] children@.push(h)[k],
                        input.c,
                        input.s@,
                        elem_offset(children@.push(h), k),
                    ) by {
                        lemma_offsets_push(children@, h, k);
                        if k < children@.len() {
                            assert(children@.push(h)[k] == children@[k]);
                        } else {
                            assert(children@.push(h)[k] == h);
                            assert(elem_offset(children@, k) == a);
                            assert(headline_shape(h, input.c, input.s@.subrange(a, input.s@.len() as int)));
                        }
                    }
                    lemma_seq_text_push(children@, h);
                    assert(children@.push(h).drop_last() =~= children@);
                    lemma_all_step(children@, children@.push(h));
                }
                children.push(h);
                cur = i;
            },
            None => {
                assert(false);
            },
        }
    }
    assert(input.s@ =~= seq_text(children@));
    let root = GreenNode::new(SyntaxKind::DOCUMENT, children);
    proof {
        lemma_plain_well_formed(root);
    }
    root
}

/// `c` holds `TODO` as its only todo keyword and `DONE` as its only done keyword.
pub open spec fn is_default_config(c: &ParseConfig) -> bool {
    c.todo_keywords.0@.len() == 1 && c.todo_keywords.0@[0]@ == seq!['T', 'O', 'D', 'O']
        && c.todo_keywords.1@.len() == 1 && c.todo_keywords.1@[0]@ == seq!['D', 'O', 'N', 'E']
}

/// A parsed document: the root of its lossless tree.
pub struct Org {
    pub green: GreenNode,
}

impl Org {
    /// The text the tree covers.
    pub open spec fn source(&self) -> Seq<char> {
        seq_text(self.green.children@)
    }

    /// Parses `text` with the default configuration.
    pub fn parse(text: &str) -> (r: Org)
        ensures
            r.source() == text@,
            r.green.kind == SyntaxKind::DOCUMENT,
            well_formed(GreenElement::Node(r.green)),
            exists|c: ParseConfig|
                is_default_config(&c) && forall|i: int|
                    0 <= i < r.green.children@.len() ==> doc_child_ok(
                        #[trigger] r.green.children@[i],
                        &c,
                        text@,
                        elem_offset(r.green.children@, i),
                    ),
            timestamp_len(text@) == Some(text@.len() as int) ==> single_timestamp_document(
                r.green.children@,
                text@,
            ),
    {
        let config = ParseConfig::default();
        let r = Org::parse_custom(text, &config);
        assert(is_default_config(&config));
        r
    }

    /// Parses `text` with `config`. The tree covers `text` exactly, is well
    /// formed (see `well_formed`), and a text that is exactly one timestamp
    /// becomes one section holding one paragraph holding that timestamp.
    pub fn parse_custom(text: &str, config: &ParseConfig) -> (r: Org)
        ensures
            r.source() == text@,
            r.green.kind == SyntaxKind::DOCUMENT,
            well_formed(GreenElement::Node(r.green)),
            timestamp_len(text@) == Some(text@.len() as int) ==> single_timestamp_document(
                r.green.children@,
                text@,
            ),
            forall|i: int|
                0 <= i < r.green.children@.len() ==> doc_child_ok(
                    #[trigger] r.green.children@[i],
                    config,
                    text@,
                    elem_offset(r.green.children@, i),
                ),
    {
        let chars = chars_of(text);
        let green = document_node(Input::new(chars.as_slice(), config));
        Org { green }
    }

    /// The typed view of the root.
    pub fn document(&self) -> (r: Document<'_>)
        ensures
            *r.syntax == self.green,
    {
        Document { syntax: &self.green }
    }

    /// The first node, in depth-first pre-order below the root, whose kind is
    /// one of `kinds`.
    pub fn first_node(&self, kinds: &[SyntaxKind]) -> (r: Option<&GreenNode>)
        ensures
            match r {
                Some(n) => preorder_first_seq(self.green.children@, kinds@) == Some(*n),
                None => preorder_first_seq(self.green.children@, kinds@) is None,
            },
    {
        first_descendant_in(&self.green.children, kinds)
    }

    /// The exact source text: the input that was parsed.
    pub fn to_source(&self) -> (r: String)
        ensures
            r@ == self.source(),
    {
        self.green.to_source()
    }
}

/// Parses `text` with `config`.
pub fn parse(text: &str, config: &ParseConfig) -> (r: Org)
    ensures
        r.source() == text@,
        r.green.kind == SyntaxKind::DOCUMENT,
        well_formed(GreenElement::Node(r.green)),
        timestamp_len(text@) == Some(text@.len() as int) ==> single_timestamp_document(
            r.green.children@,
            text@,
        ),
        forall|i: int|
            0 <= i < r.green.children@.len() ==> doc_child_ok(
                #[trigger] r.green.children@[i],
                config,
                text@,
                elem_offset(r.green.children@, i),
            ),
{
    Org::parse_custom(text, config)
}

/// Coverage: the lengths of all tokens' text under the document add up to
/// the length of its source, counted in characters and in UTF-8 bytes.
/// (With `parse`, the source is the parsed text, whose `len()` is the byte
/// count.)
pub proof fn lemma_token_coverage(org: Org)
    ensures
        seq_token_len_sum(org.green.children@) == org.source().len(),
        seq_token_byte_sum(org.green.children@) == encode_utf8(org.source()).len(),
{
    lemma_seq_token_len_sum(org.green.children@);
    lemma_seq_token_byte_sum(org.green.children@);
}

} // verus!
