use vstd::prelude::*;
use crate::combinator::{blank_lines, first_line_has_content, is_ascii_whitespace, is_ascii_ws};
use crate::headline::{is_headline_start, star_count, starts_headline};
use crate::input::{Input, slice_range};
use crate::kind::SyntaxKind;
use crate::element::{element_extent, is_element_kind, paragraph_extent};
use crate::object::{is_object_kind, object_nodes};
use crate::timestamp::{layout_matches, timestamp_layout, all_tokens, lemma_timestamp_no_newline, lemma_timestamp_start, timestamp_kind_of, timestamp_len};
use crate::shape::{all_well_formed, lemma_plain_elem, well_formed};
use crate::tree::{
    elem_children, GreenElement, elem_text, is_node, lemma_seq_text_concat, lemma_seq_text_push, node, seq_text,
};

verus! {

/// `q` starts a line of `s` (it is zero or follows a `\n`) at which a
/// headline starts.
pub open spec fn headline_line_at(s: Seq<char>, q: int) -> bool {
    0 <= q <= s.len() && (q == 0 || s[q - 1] == '\n') && starts_headline(s.subrange(q, s.len() as int))
}

/// Where `t` is `s` from `a` on, a headline line of `s` at `a + q` is one of
/// `t` at `q`.
pub proof fn lemma_line_at_shift(s: Seq<char>, a: int, t: Seq<char>, q: int)
    requires
        0 <= a <= s.len(),
        t == s.subrange(a, s.len() as int),
        0 <= q <= t.len(),
        headline_line_at(s, a + q),
    ensures
        headline_line_at(t, q),
{
    assert(t.subrange(q, t.len() as int) =~= s.subrange(a + q, s.len() as int));
    if q > 0 {
        assert(t[q - 1] == s[a + q - 1]);
    }
}

/// Splits off a section: everything up to the first line that starts a
/// headline. Fails on empty input and where the input itself starts a headline.
pub fn section_text<'a>(input: Input<'a>) -> (r: Option<(Input<'a>, Input<'a>)>)
    ensures
        r is Some <==> input.s@.len() > 0 && !starts_headline(input.s@),
        r matches Some((rest, section)) ==> {
            &&& input.s@ == section.s@ + rest.s@
            &&& section.s@.len() > 0
            &&& rest.s@.len() == 0 || headline_line_at(input.s@, section.s@.len() as int)
            &&& forall|q: int| 0 <= q < section.s@.len() ==> !headline_line_at(input.s@, q)
            &&& rest.c == input.c
            &&& section.c == input.c
        },
{
    let s = input.s;
    if s.len() == 0 {
        return None;
    }
    if is_headline_start(s) {
        return None;
    }
    assert(s@.subrange(0, s@.len() as int) =~= s@);
    let mut i: usize = 0;
    while i < s.len()
        invariant
            i <= s@.len(),
            s@ == input.s@,
            s@.len() > 0,
            !starts_headline(s@),
            forall|q: int| 0 <= q <= i && q < s@.len() ==> !headline_line_at(s@, q),
        decreases s@.len() - i,
    {
        if s[i] == '\n' && is_headline_start(slice_range(s, i + 1, s.len())) {
            let (section, rest) = input.take_split(i + 1);
            assert(rest.s@ =~= s@.subrange(i + 1, s@.len() as int));
            return Some((rest, section));
        }
        proof {
            if i + 1 < s@.len() {
                if s@[i as int] == '\n' {
                    assert(!starts_headline(s@.subrange(i + 1, s@.len() as int)));
                }
                assert(!headline_line_at(s@, i + 1));
            }
        }
        i = i + 1;
    }
    let (section, rest) = input.take_split(s.len());
    Some((rest, section))
}

/// `cs` is one paragraph holding exactly one timestamp, whose text is `t`.
pub open spec fn single_timestamp_paragraph(cs: Seq<GreenElement>, t: Seq<char>) -> bool {
    &&& cs.len() == 1
    &&& is_node(cs[0], SyntaxKind::PARAGRAPH)
    &&& elem_children(cs[0]).len() == 1
    &&& is_node(elem_children(cs[0])[0], timestamp_kind_of(t))
    &&& all_tokens(elem_children(elem_children(cs[0])[0]))
    &&& layout_matches(elem_children(elem_children(cs[0])[0]), timestamp_layout(t))
    &&& elem_text(elem_children(cs[0])[0]) == t
}

/// A token, or an object node whose children are tokens.
pub open spec fn leaf_or_object(e: GreenElement) -> bool {
    e is Token || (e matches GreenElement::Node(n) && is_object_kind(n.kind) && all_tokens(n.children@))
}

/// The children `cs` of a section: paragraphs and other elements, whose own
/// children are tokens or object nodes holding tokens.
pub open spec fn section_body_ok(cs: Seq<GreenElement>) -> bool {
    forall|i: int|
        0 <= i < cs.len() ==> (#[trigger] cs[i] matches GreenElement::Node(n) && (n.kind
            == SyntaxKind::PARAGRAPH || is_element_kind(n.kind)) && forall|k: int|
            0 <= k < n.children@.len() ==> leaf_or_object(#[trigger] n.children@[k]))
}

/// `t` is one line with content whose first character opens no element.
pub open spec fn plain_line(t: Seq<char>) -> bool {
    t.len() > 0 && !crate::combinator::is_ascii_ws(t[0]) && !crate::element::opener_char(t[0])
        && crate::timestamp::no_newline(t, 0, t.len() - 1)
}

/// The elements `cs` of a section with text `t`: a plain line is one
/// paragraph of its objects; blank lines are one paragraph of whole blank lines.
pub open spec fn plain_section(cs: Seq<GreenElement>, t: Seq<char>) -> bool {
    &&& plain_line(t) ==> cs.len() == 1 && is_node(cs[0], SyntaxKind::PARAGRAPH)
        && crate::object::objects_ok(elem_children(cs[0]), t)
    &&& (t.len() > 0 && crate::combinator::all_ws(t)) ==> cs.len() == 1 && is_node(
        cs[0],
        SyntaxKind::PARAGRAPH,
    ) && crate::combinator::whole_lines(elem_children(cs[0]), t) && forall|k: int|
        0 <= k < elem_children(cs[0]).len() ==> (#[trigger] elem_children(cs[0])[k] matches GreenElement::Token(
            tk,
        ) && tk.kind == SyntaxKind::BLANK_LINE)
}

/// The children of an element's lines: objects for a paragraph, a single
/// `TEXT` token otherwise.
fn element_children(kind: SyntaxKind, content: Input) -> (r: Vec<GreenElement>)
    ensures
        seq_text(r@) == content.s@,
        all_well_formed(r@),
        forall|k: int| 0 <= k < r@.len() ==> leaf_or_object(#[trigger] r@[k]),
        kind == SyntaxKind::PARAGRAPH ==> crate::object::objects_ok(r@, content.s@),
        kind == SyntaxKind::PARAGRAPH && content.s@.len() == 0 ==> r@.len() == 0,
        kind == SyntaxKind::PARAGRAPH && timestamp_len(content.s@) == Some(content.s@.len() as int)
            ==> r@.len() == 1 && is_node(r@[0], timestamp_kind_of(content.s@)) && elem_text(r@[0])
            == content.s@ && all_tokens(elem_children(r@[0]))
            && layout_matches(elem_children(r@[0]), timestamp_layout(content.s@)),
{
    if kind == SyntaxKind::PARAGRAPH {
        object_nodes(content)
    } else {
        let mut v: Vec<GreenElement> = Vec::new();
        if content.len() > 0 {
            let t = content.text_token();
            proof {
                lemma_seq_text_push(v@, t);
                assert(seq_text(Seq::<GreenElement>::empty()) == Seq::<char>::empty());
            }
            v.push(t);
        }
        assert(seq_text(v@) =~= content.s@);
        v
    }
}

/// Parses the elements of a section: each element is the lines that
/// `element_extent` (or, failing it, `paragraph_extent`) takes, followed by
/// the blank lines after them. A paragraph's lines are parsed as objects.
/// Parses one element at the start of `rest`, with the blank lines after it.
#[verifier::rlimit(100)]
fn element_step<'a>(rest: Input<'a>) -> (r: (Input<'a>, GreenElement))
    requires
        rest.s@.len() > 0,
    ensures
        rest.s@ == elem_text(r.1) + r.0.s@,
        r.0.s@.len() < rest.s@.len(),
        r.0.c == rest.c,
        r.1 matches GreenElement::Node(n) && (n.kind == SyntaxKind::PARAGRAPH || is_element_kind(n.kind))
            && forall|k: int| 0 <= k < n.children@.len() ==> leaf_or_object(#[trigger] n.children@[k]),
        well_formed(r.1),
        timestamp_len(rest.s@) == Some(rest.s@.len() as int) ==> r.0.s@.len() == 0
            && single_timestamp_paragraph(seq![r.1], rest.s@),
        (plain_line(rest.s@) || crate::combinator::all_ws(rest.s@)) ==> r.0.s@.len() == 0
            && plain_section(seq![r.1], rest.s@),
{
    let s = rest.s;
    proof {
    if timestamp_len(s@) == Some(s@.len() as int) {
    lemma_timestamp_start(s@);
    lemma_timestamp_no_newline(s@);
    }
    }
    let (kind, p) = match element_extent(s) {
    Some((k, n)) => (k, n),
    None => (SyntaxKind::PARAGRAPH, paragraph_extent(s)),
    };
    let (content, after) = rest.take_split(p);
    let mut children = element_children(kind, content);
    let (rest2, mut blanks) = blank_lines(after);
    proof {
    if p == 0 {
    assert(after.s@ =~= s@);
    assert(blanks@.len() > 0) by {
        if blanks@.len() == 0 {
        assert(seq_text(blanks@) =~= Seq::<char>::empty());
        assert(rest2.s@ =~= after.s@);
        }
    }
    }
    lemma_seq_text_concat(children@, blanks@);
    }
    let ghost c1 = children@;
    let ghost b1 = blanks@;
    children.append(&mut blanks);
    proof {
    assert forall|i: int| 0 <= i < children@.len() implies well_formed(#[trigger] children@[i]) && leaf_or_object(children@[i]) by {
    if i < c1.len() {
        assert(children@[i] == c1[i]);
    } else {
        assert(children@[i] == b1[i - c1.len()]);
    }
    }
    }
    let elem = node(kind, children);
    proof {
    if timestamp_len(s@) == Some(s@.len() as int) {
    assert(p == s@.len());
    assert(content.s@ =~= s@);
    assert(children@ =~= c1);
    assert(seq![elem] =~= seq![elem]);
    }
    lemma_plain_elem(elem);
    assert(seq_text(c1 + b1) == content.s@ + seq_text(b1));
    if p == 0 {
    assert(seq_text(b1).len() > 0) by {
        crate::tree::lemma_seq_token_len_sum(b1);
        assert(b1.len() > 0);
        assert(seq_text(b1) == seq_text(b1.drop_last()) + elem_text(b1.last()));
        assert(elem_text(b1.last()).len() > 0);
    }
    }
    }
    proof {
        let t = rest.s@;
        if plain_line(t) || crate::combinator::all_ws(t) {
            if plain_line(t) {
                assert(p == t.len());
                assert(after.s@.len() == 0);
                assert(b1.len() == 0);
                assert(c1 + b1 =~= c1);
                assert(content.s@ =~= t);
            } else {
                assert(p == 0);
                assert(content.s@.len() == 0);
                assert(c1.len() == 0);
                assert(after.s@ =~= t);
                assert(c1 + b1 =~= b1);
                if rest2.s@.len() > 0 {
                    let j = choose|j: int|
                        0 <= j < rest2.s@.len() && !crate::combinator::is_ascii_ws(#[trigger] rest2.s@[j]) && forall|k: int|
                            0 <= k < j ==> #[trigger] rest2.s@[k] != '\n' && rest2.s@[k] != '\r';
                    assert(rest2.s@[j] == t[t.len() - rest2.s@.len() + j]);
                }
            }
        }
        assert(rest.s@ =~= elem_text(elem) + rest2.s@);
    }
    (rest2, elem)
}

#[verifier::rlimit(100)]
pub(crate) fn element_nodes(input: Input) -> (r: Vec<GreenElement>)
    ensures
        seq_text(r@) == input.s@,
        forall|i: int|
            0 <= i < r@.len() ==> (#[trigger] r@[i] matches GreenElement::Node(n) && (n.kind
                == SyntaxKind::PARAGRAPH || is_element_kind(n.kind))),
        all_well_formed(r@),
        section_body_ok(r@),
        plain_section(r@, input.s@),
        timestamp_len(input.s@) == Some(input.s@.len() as int) ==> single_timestamp_paragraph(
            r@,
            input.s@,
        ),
{
    let mut out: Vec<GreenElement> = Vec::new();
    let mut rest = input;
    let ghost whole = timestamp_len(input.s@) == Some(input.s@.len() as int);
    while !rest.is_empty()
        invariant
            input.s@ == seq_text(out@) + rest.s@,
            forall|i: int|
                0 <= i < out@.len() ==> (#[trigger] out@[i] matches GreenElement::Node(n) && (n.kind
                    == SyntaxKind::PARAGRAPH || is_element_kind(n.kind))),
            all_well_formed(out@),
            section_body_ok(out@),
            (plain_line(input.s@) || (input.s@.len() > 0 && crate::combinator::all_ws(input.s@))) ==> ((out@.len() == 0 && rest.s@ == input.s@) || (rest.s@.len() == 0 && plain_section(out@, input.s@))),
            whole == (timestamp_len(input.s@) == Some(input.s@.len() as int)),
            whole ==> (out@.len() == 0 && rest.s@ == input.s@) || (rest.s@.len() == 0
                && single_timestamp_paragraph(out@, input.s@)),
        decreases rest.s@.len(),
    {
        let (rest2, elem) = element_step(rest);
        proof {
            lemma_seq_text_push(out@, elem);
            assert(out@.push(elem).drop_last() =~= out@);
            assert forall|i: int| 0 <= i < out@.push(elem).len() implies (#[trigger] out@.push(elem)[i] matches GreenElement::Node(n) && (n.kind
                == SyntaxKind::PARAGRAPH || is_element_kind(n.kind)) && forall|k: int|
                0 <= k < n.children@.len() ==> leaf_or_object(#[trigger] n.children@[k])) by {
                if i < out@.len() {
                    assert(out@.push(elem)[i] == out@[i]);
                }
            }
            crate::shape::lemma_all_step(out@, out@.push(elem));
        }
        let ghost out0 = out@;
        out.push(elem);
        proof {
            if out0.len() == 0 {
                assert(out@ =~= seq![elem]);
            }
        }
        rest = rest2;
    }
    assert(input.s@ =~= seq_text(out@));
    out
}

/// Parses a section: the elements up to the next headline.
pub fn section_node<'a>(input: Input<'a>) -> (r: Option<(Input<'a>, GreenElement)>)
    ensures
        r is Some <==> input.s@.len() > 0 && !starts_headline(input.s@),
        r matches Some((rest, e)) ==> {
            &&& input.s@ == elem_text(e) + rest.s@
            &&& is_node(e, SyntaxKind::SECTION)
            &&& well_formed(e)
            &&& rest.s@.len() == 0 || starts_headline(rest.s@)
            &&& rest.s@.len() == 0 || headline_line_at(input.s@, elem_text(e).len() as int)
            &&& forall|q: int| 0 <= q < elem_text(e).len() ==> !headline_line_at(input.s@, q)
            &&& elem_text(e).len() > 0
            &&& section_body_ok(elem_children(e))
            &&& plain_section(elem_children(e), elem_text(e))
            &&& rest.c == input.c
        },
        timestamp_len(input.s@) == Some(input.s@.len() as int) ==> (r matches Some((rest, e))
            && rest.s@.len() == 0 && single_timestamp_paragraph(elem_children(e), input.s@)),
{
    proof {
        if timestamp_len(input.s@) == Some(input.s@.len() as int) {
            lemma_timestamp_start(input.s@);
            lemma_timestamp_no_newline(input.s@);
            assert(star_count(input.s@) == 0);
        }
    }
    match section_text(input) {
        None => None,
        Some((rest, section)) => {
            proof {
                if timestamp_len(input.s@) == Some(input.s@.len() as int) && rest.s@.len() > 0 {
                    assert(headline_line_at(input.s@, section.s@.len() as int));
                    assert(input.s@[section.s@.len() - 1] == '\n');
                    assert(false);
                }
                if rest.s@.len() == 0 {
                    assert(section.s@ =~= input.s@);
                }
            }
            let e = node(SyntaxKind::SECTION, element_nodes(section));
            proof {
                lemma_plain_elem(e);
                if rest.s@.len() > 0 {
                    assert(rest.s@ =~= input.s@.subrange(
                        section.s@.len() as int,
                        input.s@.len() as int,
                    ));
                }
            }
            Some((rest, e))
        },
    }
}

} // verus!
