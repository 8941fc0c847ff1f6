use vstd::prelude::*;
use crate::config::ParseConfig;
use crate::kind::SyntaxKind;
use crate::tree::{token, GreenElement, is_token, elem_text};

verus! {

/// The cursor that parsers take and return: the unparsed characters and the
/// configuration in force.
#[derive(Clone, Copy)]
pub struct Input<'a> {
    pub s: &'a [char],
    pub c: &'a ParseConfig,
}

impl<'a> Input<'a> {
    pub fn new(s: &'a [char], c: &'a ParseConfig) -> (r: Input<'a>)
        ensures
            r.s@ == s@,
            r.c == c,
    {
        Input { s, c }
    }

    pub fn len(&self) -> (r: usize)
        ensures
            r == self.s@.len(),
    {
        self.s.len()
    }

    pub fn is_empty(&self) -> (r: bool)
        ensures
            r == (self.s@.len() == 0),
    {
        self.s.len() == 0
    }

    pub fn as_chars(&self) -> (r: &'a [char])
        ensures
            r@ == self.s@,
    {
        self.s
    }

    /// The characters from `a` up to `b`, under the same configuration.
    pub fn slice(&self, a: usize, b: usize) -> (r: Input<'a>)
        requires
            a <= b <= self.s@.len(),
        ensures
            r.s@ == self.s@.subrange(a as int, b as int),
            r.c == self.c,
    {
        Input { s: slice_range(self.s, a, b), c: self.c }
    }

    /// The first `n` characters and the rest.
    pub fn take_split(&self, n: usize) -> (r: (Input<'a>, Input<'a>))
        requires
            n <= self.s@.len(),
        ensures
            r.0.s@ == self.s@.subrange(0, n as int),
            r.1.s@ == self.s@.subrange(n as int, self.s@.len() as int),
            r.0.c == self.c,
            r.1.c == self.c,
            self.s@ == r.0.s@ + r.1.s@,
    {
        let (a, b) = self.s.split_at(n);
        assert(self.s@ =~= a@ + b@);
        (Input { s: a, c: self.c }, Input { s: b, c: self.c })
    }

    pub fn token(&self, kind: SyntaxKind) -> (r: GreenElement)
        ensures
            is_token(r, kind, self.s@),
            elem_text(r) == self.s@,
    {
        token(kind, self.s)
    }

    pub fn text_token(&self) -> (r: GreenElement)
        ensures
            is_token(r, SyntaxKind::TEXT, self.s@),
            elem_text(r) == self.s@,
    {
        token(SyntaxKind::TEXT, self.s)
    }

    pub fn ws_token(&self) -> (r: GreenElement)
        ensures
            is_token(r, SyntaxKind::WHITESPACE, self.s@),
            elem_text(r) == self.s@,
    {
        token(SyntaxKind::WHITESPACE, self.s)
    }

    pub fn nl_token(&self) -> (r: GreenElement)
        ensures
            is_token(r, SyntaxKind::NEW_LINE, self.s@),
            elem_text(r) == self.s@,
    {
        token(SyntaxKind::NEW_LINE, self.s)
    }
}

/// `s[a..b]`.
pub fn slice_range<'a>(s: &'a [char], a: usize, b: usize) -> (r: &'a [char])
    requires
        a <= b <= s@.len(),
    ensures
        r@ == s@.subrange(a as int, b as int),
{
    let (_, tail) = s.split_at(a);
    let (mid, _) = tail.split_at(b - a);
    assert(mid@ =~= s@.subrange(a as int, b as int));
    mid
}

} // verus!
