use vstd::prelude::*;
use crate::kind::SyntaxKind;
use vstd::utf8::encode_utf8;
use crate::text::string_of;
use vstd::string::StringExecFns;

verus! {

/// A leaf of the green tree: a kind and the literal source text it covers.
pub struct GreenToken {
    pub kind: SyntaxKind,
    pub text: String,
}

/// An inner node of the green tree: a kind and its ordered children.
pub struct GreenNode {
    pub kind: SyntaxKind,
    pub children: Vec<GreenElement>,
}

/// Either a node or a token.
pub enum GreenElement {
    Node(GreenNode),
    Token(GreenToken),
}

/// The source text covered by an element: its tokens' text, left to right.
pub open spec fn elem_text(e: GreenElement) -> Seq<char>
    decreases e, 0int,
{
    match e {
        GreenElement::Token(t) => t.text@,
        GreenElement::Node(n) => seq_text(n.children@),
    }
}

/// The source text covered by a run of sibling elements.
pub open spec fn seq_text(cs: Seq<GreenElement>) -> Seq<char>
    decreases cs, 1int,
{
    if cs.len() == 0 {
        Seq::empty()
    } else {
        seq_text(cs.drop_last()) + elem_text(cs.last())
    }
}

pub open spec fn elem_kind(e: GreenElement) -> SyntaxKind {
    match e {
        GreenElement::Token(t) => t.kind,
        GreenElement::Node(n) => n.kind,
    }
}

/// `e` is a token of kind `k` whose text is `s`.
pub open spec fn is_token(e: GreenElement, k: SyntaxKind, s: Seq<char>) -> bool {
    e matches GreenElement::Token(t) && t.kind == k && t.text@ == s
}

/// `e` is a node of kind `k`.
pub open spec fn is_node(e: GreenElement, k: SyntaxKind) -> bool {
    e matches GreenElement::Node(n) && n.kind == k
}

/// The children of `e`, empty for a token.
pub open spec fn elem_children(e: GreenElement) -> Seq<GreenElement> {
    match e {
        GreenElement::Token(_) => Seq::empty(),
        GreenElement::Node(n) => n.children@,
    }
}

/// The sum of the lengths of every token's text under `e`.
pub open spec fn token_len_sum(e: GreenElement) -> nat
    decreases e, 0int,
{
    match e {
        GreenElement::Token(t) => t.text@.len(),
        GreenElement::Node(n) => seq_token_len_sum(n.children@),
    }
}

pub open spec fn seq_token_len_sum(cs: Seq<GreenElement>) -> nat
    decreases cs, 1int,
{
    if cs.len() == 0 {
        0
    } else {
        seq_token_len_sum(cs.drop_last()) + token_len_sum(cs.last())
    }
}

pub proof fn lemma_token_len_sum(e: GreenElement)
    ensures
        token_len_sum(e) == elem_text(e).len(),
    decreases e, 0int,
{
    match e {
        GreenElement::Token(t) => {},
        GreenElement::Node(n) => {
            lemma_seq_token_len_sum(n.children@);
        },
    }
}

pub proof fn lemma_seq_token_len_sum(cs: Seq<GreenElement>)
    ensures
        seq_token_len_sum(cs) == seq_text(cs).len(),
    decreases cs, 1int,
{
    if cs.len() > 0 {
        lemma_seq_token_len_sum(cs.drop_last());
        lemma_token_len_sum(cs.last());
    }
}

/// The sum of the UTF-8 lengths of every token's text under `e`.
pub open spec fn token_byte_sum(e: GreenElement) -> nat
    decreases e, 0int,
{
    match e {
        GreenElement::Token(t) => encode_utf8(t.text@).len(),
        GreenElement::Node(n) => seq_token_byte_sum(n.children@),
    }
}

pub open spec fn seq_token_byte_sum(cs: Seq<GreenElement>) -> nat
    decreases cs, 1int,
{
    if cs.len() == 0 {
        0
    } else {
        seq_token_byte_sum(cs.drop_last()) + token_byte_sum(cs.last())
    }
}

/// UTF-8 encodes a concatenation piece by piece.
pub proof fn lemma_encode_utf8_concat(a: Seq<char>, b: Seq<char>)
    ensures
        encode_utf8(a + b) == encode_utf8(a) + encode_utf8(b),
    decreases a.len(),
{
    if a.len() == 0 {
        assert(a + b =~= b);
        assert(encode_utf8(a) + encode_utf8(b) =~= encode_utf8(b));
    } else {
        assert((a + b)[0] == a[0]);
        assert((a + b).drop_first() =~= a.drop_first() + b);
        lemma_encode_utf8_concat(a.drop_first(), b);
        assert(encode_utf8(a + b) =~= encode_utf8(a) + encode_utf8(b));
    }
}

pub proof fn lemma_token_byte_sum(e: GreenElement)
    ensures
        token_byte_sum(e) == encode_utf8(elem_text(e)).len(),
    decreases e, 0int,
{
    match e {
        GreenElement::Token(t) => {},
        GreenElement::Node(n) => {
            lemma_seq_token_byte_sum(n.children@);
        },
    }
}

pub proof fn lemma_seq_token_byte_sum(cs: Seq<GreenElement>)
    ensures
        seq_token_byte_sum(cs) == encode_utf8(seq_text(cs)).len(),
    decreases cs, 1int,
{
    if cs.len() > 0 {
        lemma_seq_token_byte_sum(cs.drop_last());
        lemma_token_byte_sum(cs.last());
        lemma_encode_utf8_concat(seq_text(cs.drop_last()), elem_text(cs.last()));
    }
}

pub proof fn lemma_seq_text_push(cs: Seq<GreenElement>, e: GreenElement)
    ensures
        seq_text(cs.push(e)) == seq_text(cs) + elem_text(e),
{
    assert(cs.push(e).drop_last() =~= cs);
}

pub proof fn lemma_seq_text_concat(a: Seq<GreenElement>, b: Seq<GreenElement>)
    ensures
        seq_text(a + b) == seq_text(a) + seq_text(b),
    decreases b.len(),
{
    if b.len() == 0 {
        assert(a + b =~= a);
        assert(seq_text(a) + seq_text(b) =~= seq_text(a));
    } else {
        lemma_seq_text_concat(a, b.drop_last());
        assert((a + b).drop_last() =~= a + b.drop_last());
        assert((a + b).last() == b.last());
        assert(seq_text(a) + seq_text(b) =~= seq_text(a) + seq_text(b.drop_last()) + elem_text(
            b.last(),
        ));
    }
}

pub proof fn lemma_seq_text_prefix(cs: Seq<GreenElement>, i: int)
    requires
        0 <= i < cs.len(),
    ensures
        seq_text(cs.subrange(0, i + 1)) == seq_text(cs.subrange(0, i)) + elem_text(cs[i]),
{
    assert(cs.subrange(0, i + 1).drop_last() =~= cs.subrange(0, i));
}

impl GreenToken {
    pub fn new(kind: SyntaxKind, text: &[char]) -> (r: GreenToken)
        ensures
            r.kind == kind,
            r.text@ == text@,
    {
        GreenToken { kind, text: string_of(text) }
    }

    pub fn kind(&self) -> (r: SyntaxKind)
        ensures
            r == self.kind,
    {
        self.kind
    }

    /// The literal text of this token.
    pub fn text(&self) -> (r: &str)
        ensures
            r@ == self.text@,
    {
        self.text.as_str()
    }
}

impl GreenNode {
    pub fn new(kind: SyntaxKind, children: Vec<GreenElement>) -> (r: GreenNode)
        ensures
            r.kind == kind,
            r.children@ == children@,
    {
        GreenNode { kind, children }
    }

    pub fn kind(&self) -> (r: SyntaxKind)
        ensures
            r == self.kind,
    {
        self.kind
    }

    /// Appends the text of this node to `out`.
    pub fn write_to(&self, out: &mut String)
        ensures
            final(out)@ == old(out)@ + seq_text(self.children@),
        decreases self,
    {
        let ghost start = out@;
        let mut i: usize = 0;
        while i < self.children.len()
            invariant
                i <= self.children@.len(),
                out@ == start + seq_text(self.children@.subrange(0, i as int)),
            decreases self.children@.len() - i,
        {
            proof {
                lemma_seq_text_prefix(self.children@, i as int);
            }
            let ghost before = out@;
            self.children[i].write_to(out);
            assert(out@ =~= start + seq_text(self.children@.subrange(0, i + 1)));
            i = i + 1;
        }
        assert(self.children@.subrange(0, i as int) =~= self.children@);
    }

    /// The source text this node covers.
    pub fn to_source(&self) -> (r: String)
        ensures
            r@ == seq_text(self.children@),
    {
        let mut out = String::new();
        self.write_to(&mut out);
        assert(out@ =~= seq_text(self.children@));
        out
    }
}

impl GreenElement {
    pub fn kind(&self) -> (r: SyntaxKind)
        ensures
            r == elem_kind(*self),
    {
        match self {
            GreenElement::Node(n) => n.kind,
            GreenElement::Token(t) => t.kind,
        }
    }

    /// Appends the text of this element to `out`.
    pub fn write_to(&self, out: &mut String)
        ensures
            final(out)@ == old(out)@ + elem_text(*self),
        decreases self,
    {
        match self {
            GreenElement::Node(n) => n.write_to(out),
            GreenElement::Token(t) => out.append(t.text.as_str()),
        }
    }

    /// The source text this element covers.
    pub fn to_source(&self) -> (r: String)
        ensures
            r@ == elem_text(*self),
    {
        let mut out = String::new();
        self.write_to(&mut out);
        assert(out@ =~= elem_text(*self));
        out
    }
}

/// A token of `kind` holding `text`.
pub fn token(kind: SyntaxKind, text: &[char]) -> (r: GreenElement)
    ensures
        is_token(r, kind, text@),
        elem_text(r) == text@,
{
    GreenElement::Token(GreenToken::new(kind, text))
}

/// A node of `kind` with `children`.
pub fn node(kind: SyntaxKind, children: Vec<GreenElement>) -> (r: GreenElement)
    ensures
        is_node(r, kind),
        elem_children(r) == children@,
        elem_text(r) == seq_text(children@),
{
    GreenElement::Node(GreenNode::new(kind, children))
}

} // verus!
