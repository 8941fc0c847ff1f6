use vstd::prelude::*;
use crate::input::Input;
use crate::kind::SyntaxKind;
use crate::tree::{GreenElement, seq_text, lemma_seq_text_push, is_token, elem_text, is_node, elem_children, node};

verus! {

/// ASCII whitespace, as `u8::is_ascii_whitespace` has it.
pub open spec fn is_ascii_ws(c: char) -> bool {
    c == ' ' || c == '\t' || c == '\n' || c == '\r' || c == '\x0C'
}

pub open spec fn is_space_tab(c: char) -> bool {
    c == ' ' || c == '\t'
}

pub open spec fn all_ws(s: Seq<char>) -> bool {
    forall|i: int| 0 <= i < s.len() ==> is_ascii_ws(#[trigger] s[i])
}

pub open spec fn all_space_tab(s: Seq<char>) -> bool {
    forall|i: int| 0 <= i < s.len() ==> is_space_tab(#[trigger] s[i])
}

pub open spec fn no_char(s: Seq<char>, c: char) -> bool {
    forall|i: int| 0 <= i < s.len() ==> #[trigger] s[i] != c
}

/// `s` is one line: no line terminator but at its end, where `\r\n`
/// counts as one terminator.
pub open spec fn is_single_line(s: Seq<char>) -> bool {
    forall|i: int|
        0 <= i < s.len() - 1 ==> (#[trigger] s[i] == '\n' || s[i] == '\r') ==> (i == s.len() - 2
            && s[i] == '\r' && s[i + 1] == '\n')
}

/// The first line of `s` (up to its first `\r` or `\n`) holds a
/// character that is not whitespace.
pub open spec fn first_line_has_content(s: Seq<char>) -> bool {
    exists|j: int|
        0 <= j < s.len() && !is_ascii_ws(#[trigger] s[j]) && forall|k: int|
            0 <= k < j ==> #[trigger] s[k] != '\n' && s[k] != '\r'
}

pub fn is_ascii_whitespace(c: char) -> (r: bool)
    ensures
        r == is_ascii_ws(c),
{
    c == ' ' || c == '\t' || c == '\n' || c == '\r' || c == '\x0C'
}

/// Splits off the leading spaces and tabs: returns the rest and what was taken.
pub fn space0<'a>(input: Input<'a>) -> (r: (Input<'a>, Input<'a>))
    ensures
        all_space_tab(r.1.s@),
        r.0.s@.len() == 0 || !is_space_tab(r.0.s@[0]),
        input.s@ == r.1.s@ + r.0.s@,
        r.0.c == input.c,
        r.1.c == input.c,
{
    let mut i: usize = 0;
    while i < input.s.len() && (input.s[i] == ' ' || input.s[i] == '\t')
        invariant
            i <= input.s@.len(),
            all_space_tab(input.s@.subrange(0, i as int)),
        decreases input.s@.len() - i,
    {
        i = i + 1;
    }
    let (a, b) = input.take_split(i);
    (b, a)
}

/// Where the `i`-th of the elements `cs` starts, within their joint text.
pub open spec fn elem_offset(cs: Seq<GreenElement>, i: int) -> int {
    seq_text(cs.subrange(0, i)).len() as int
}

/// Pushing keeps the offsets of the elements already there.
pub proof fn lemma_offsets_push(cs: Seq<GreenElement>, e: GreenElement, i: int)
    requires
        0 <= i <= cs.len(),
    ensures
        elem_offset(cs.push(e), i) == elem_offset(cs, i),
        cs.push(e).subrange(0, i) == cs.subrange(0, i),
{
    assert(cs.push(e).subrange(0, i) =~= cs.subrange(0, i));
}

/// The `i`-th of `cs` stands in their joint text at its offset.
pub proof fn lemma_elem_in_text(cs: Seq<GreenElement>, i: int)
    requires
        0 <= i < cs.len(),
    ensures
        0 <= elem_offset(cs, i),
        elem_offset(cs, i) + crate::tree::elem_text(cs[i]).len() <= seq_text(cs).len(),
        seq_text(cs).subrange(elem_offset(cs, i), elem_offset(cs, i) + crate::tree::elem_text(cs[i]).len())
            == crate::tree::elem_text(cs[i]),
{
    let a = cs.subrange(0, i);
    let b = cs.subrange(i + 1, cs.len() as int);
    crate::tree::lemma_seq_text_prefix(cs, i);
    crate::tree::lemma_seq_text_concat(cs.subrange(0, i + 1), b);
    assert(cs.subrange(0, i + 1) + b =~= cs);
    let t = crate::tree::elem_text(cs[i]);
    let off = seq_text(a).len() as int;
    assert(seq_text(cs) == seq_text(a) + t + seq_text(b));
    assert(seq_text(cs).subrange(off, off + t.len()) =~= t);
}

/// Each of `cs` is exactly the whole line of `s` that starts where it does.
pub open spec fn whole_lines(cs: Seq<GreenElement>, s: Seq<char>) -> bool {
    forall|i: int|
        0 <= i < cs.len() ==> crate::tree::elem_text(#[trigger] cs[i]) == s.subrange(
            elem_offset(cs, i),
            line_stop(s, elem_offset(cs, i)),
        )
}

/// Takes all blank lines: each line that holds only whitespace becomes one
/// `BLANK_LINE` token, terminator included, until the first line with content.
pub fn blank_lines<'a>(input: Input<'a>) -> (r: (Input<'a>, Vec<GreenElement>))
    ensures
        input.s@ == seq_text(r.1@) + r.0.s@,
        r.0.c == input.c,
        r.0.s@.len() == 0 || first_line_has_content(r.0.s@),
        forall|i: int|
            0 <= i < r.1@.len() ==> (#[trigger] r.1@[i] matches GreenElement::Token(t) && t.kind
                == SyntaxKind::BLANK_LINE && t.text@.len() > 0 && all_ws(t.text@)
                && is_single_line(t.text@)),
        (input.s@.len() == 0 || !is_ascii_ws(input.s@[0])) ==> r.1@.len() == 0 && r.0.s@
            == input.s@,
        whole_lines(r.1@, input.s@),
{
    let s = input.s;
    let mut lines: Vec<GreenElement> = Vec::new();
    let mut start: usize = 0;
    let mut done = false;
    while !done && start < s.len()
        invariant
            start <= s@.len(),
            done ==> first_line_has_content(s@.subrange(start as int, s@.len() as int)),
            s@ == input.s@,
            (s@.len() == 0 || !is_ascii_ws(s@[0])) ==> start == 0 && lines@.len() == 0,
            seq_text(lines@) == s@.subrange(0, start as int),
            forall|i: int|
                0 <= i < lines@.len() ==> (#[trigger] lines@[i] matches GreenElement::Token(t)
                    && t.kind == SyntaxKind::BLANK_LINE && t.text@.len() > 0 && all_ws(t.text@)
                    && is_single_line(t.text@)),
            whole_lines(lines@, s@),
        decreases s@.len() - start + (if done { 0int } else { 1int }),
    {
        // find the end of the current line
        let mut j: usize = start;
        let mut blank = true;
        while j < s.len() && s[j] != '\n' && s[j] != '\r'
            invariant
                start <= j <= s@.len(),
                blank ==> all_ws(s@.subrange(start as int, j as int)),
                !blank ==> exists|k: int|
                    start <= k < j && !is_ascii_ws(#[trigger] s@[k]) && forall|m: int|
                        start <= m < k ==> #[trigger] s@[m] != '\n' && s@[m] != '\r',
                forall|m: int| start <= m < j ==> #[trigger] s@[m] != '\n' && s@[m] != '\r',
                line_stop(s@, start as int) == line_stop(s@, j as int),
            decreases s@.len() - j,
        {
            if blank && !is_ascii_whitespace(s[j]) {
                blank = false;
            }
            j = j + 1;
        }
        if !blank {
            proof {
                let rest = s@.subrange(start as int, s@.len() as int);
                let k = choose|k: int|
                    start <= k < j && !is_ascii_ws(#[trigger] s@[k]) && forall|m: int|
                        start <= m < k ==> #[trigger] s@[m] != '\n' && s@[m] != '\r';
                assert(!is_ascii_ws(rest[k - start]));
                assert forall|m: int| 0 <= m < k - start implies #[trigger] rest[m] != '\n'
                    && rest[m] != '\r' by {
                    assert(rest[m] == s@[start + m]);
                }
                assert(first_line_has_content(rest));
            }
            done = true;
        } else {
        proof {
            if j > start {
                assert(s@.subrange(start as int, j as int)[0] == s@[start as int]);
            }
        }
        let end: usize = if j < s.len() {
            if s[j] == '\r' && j + 1 < s.len() && s[j + 1] == '\n' {
                j + 2
            } else {
                j + 1
            }
        } else {
            j
        };
        let line = Input { s: crate::input::slice_range(s, start, end), c: input.c };
        let tk = line.token(SyntaxKind::BLANK_LINE);
        let ghost before = lines@;
        proof {
            lemma_seq_text_push(lines@, tk);
            assert(s@.subrange(0, start as int) + s@.subrange(start as int, end as int)
                =~= s@.subrange(0, end as int));
            assert(all_ws(line.s@));
            assert(end == line_stop(s@, start as int));
        }
        lines.push(tk);
        proof {
            assert forall|i: int| 0 <= i < lines@.len() implies crate::tree::elem_text(#[trigger] lines@[i])
                == s@.subrange(elem_offset(lines@, i), line_stop(s@, elem_offset(lines@, i))) by {
                assert(lines@.subrange(0, i) =~= before.subrange(0, i));
                if i < before.len() {
                    assert(lines@[i] == before[i]);
                } else {
                    assert(before.subrange(0, i) =~= before);
                }
            }
        }
        start = end;
        }
    }
    let (_, rest) = input.take_split(start);
    (rest, lines)
}

/// The end of the line of `s` that starts at `i`: after its terminator
/// (`\n`, `\r\n` or a lone `\r`), or the end.
pub open spec fn line_stop(s: Seq<char>, i: int) -> int
    decreases s.len() - i,
{
    if i < 0 || i >= s.len() {
        s.len() as int
    } else if s[i] == '\n' {
        i + 1
    } else if s[i] == '\r' {
        if i + 1 < s.len() && s[i + 1] == '\n' {
            i + 2
        } else {
            i + 1
        }
    } else {
        line_stop(s, i + 1)
    }
}

pub proof fn lemma_line_stop_bound(s: Seq<char>, i: int)
    requires
        0 <= i <= s.len(),
    ensures
        i <= line_stop(s, i) <= s.len(),
    decreases s.len() - i,
{
    if i < s.len() && s[i] != '\n' && s[i] != '\r' {
        lemma_line_stop_bound(s, i + 1);
    }
}

/// Where `s[..e]` ends once its trailing whitespace is dropped.
pub open spec fn trim_end(s: Seq<char>, e: int) -> int
    decreases e,
{
    if e > 0 && is_ascii_ws(s[e - 1]) {
        trim_end(s, e - 1)
    } else {
        e
    }
}

/// The content of the first line of `s`: up to its line terminator, without
/// trailing whitespace.
pub open spec fn line_content(s: Seq<char>) -> Seq<char> {
    s.subrange(0, trim_end(s, line_stop(s, 0)))
}

/// The position of the first `\n` of `s` (or its end), and where its first line ends.
fn first_line(s: &[char]) -> (r: (usize, usize))
    ensures
        r.0 <= r.1 <= s@.len(),
        forall|k: int| 0 <= k < r.0 ==> s@[k] != '\n' && s@[k] != '\r',
        r.0 < s@.len() ==> (s@[r.0 as int] == '\n' || s@[r.0 as int] == '\r') && r.1 > r.0,
        r.0 == s@.len() ==> r.1 == r.0,
        r.1 == line_stop(s@, 0),
        is_single_line(s@.subrange(0, r.1 as int)),
{
    let mut n: usize = 0;
    while n < s.len() && s[n] != '\n' && s[n] != '\r'
        invariant
            n <= s@.len(),
            forall|k: int| 0 <= k < n ==> s@[k] != '\n' && s@[k] != '\r',
            line_stop(s@, 0) == line_stop(s@, n as int),
        decreases s@.len() - n,
    {
        n = n + 1;
    }
    let line_end = if n < s.len() {
        if s[n] == '\r' && n + 1 < s.len() && s[n + 1] == '\n' {
            n + 2
        } else {
            n + 1
        }
    } else {
        n
    };
    proof {
        let l = s@.subrange(0, line_end as int);
        assert forall|i: int| 0 <= i < l.len() - 1 && (#[trigger] l[i] == '\n' || l[i] == '\r') implies (i == l.len() - 2 && l[i] == '\r' && l[i + 1] == '\n') by {
            assert(l[i] == s@[i]);
            assert(l[i + 1] == s@[i + 1]);
        }
    }
    (n, line_end)
}

/// Where `s[..e]` ends once its trailing whitespace is dropped.
fn content_end(s: &[char], e: usize) -> (r: usize)
    requires
        e <= s@.len(),
    ensures
        r <= e,
        r == trim_end(s@, e as int),
        forall|k: int| r <= k < e ==> is_ascii_ws(#[trigger] s@[k]),
        r == 0 || !is_ascii_ws(s@[r - 1]),
{
    let mut p: usize = e;
    while p > 0 && is_ascii_whitespace(s[p - 1])
        invariant
            p <= e <= s@.len(),
            forall|k: int| p <= k < e ==> is_ascii_ws(#[trigger] s@[k]),
            trim_end(s@, e as int) == trim_end(s@, p as int),
        decreases p,
    {
        p = p - 1;
    }
    p
}

/// Splits off the first line (up to and including its terminator: `\n`,
/// `\r\n` or a lone `\r`) and returns the
/// rest, with the line cut into 1. everything before its trailing whitespace,
/// 2. the spaces and tabs that follow, 3. what is left (the line terminator).
pub fn trim_line_end<'a>(input: Input<'a>) -> (r: (Input<'a>, (Input<'a>, Input<'a>, Input<'a>)))
    ensures
        ({
            let (rest, (contents, ws, nl)) = r;
            let line = contents.s@ + ws.s@ + nl.s@;
            &&& input.s@ == line + rest.s@
            &&& is_single_line(line)
            &&& rest.s@.len() > 0 ==> line.len() > 0 && (line.last() == '\n' || line.last() == '\r')
            &&& contents.s@.len() == 0 || !is_ascii_ws(contents.s@.last())
            &&& all_space_tab(ws.s@)
            &&& all_ws(nl.s@)
            &&& nl.s@.len() == 0 || !is_space_tab(nl.s@[0])
            &&& rest.c == input.c && contents.c == input.c && ws.c == input.c && nl.c == input.c
            &&& contents.s@ == line_content(input.s@)
            &&& rest.s@ == input.s@.subrange(line_stop(input.s@, 0), input.s@.len() as int)
        }),
{
    let s = input.s;
    let (n, line_end) = first_line(s);
    let (line, rest) = input.take_split(line_end);
    let p = content_end(s, line_end);
    proof {
        assert forall|k: int| p <= k < line_end implies is_ascii_ws(#[trigger] line.s@[k]) by {
            assert(line.s@[k] == s@[k]);
        }
        if p > 0 {
            assert(line.s@[p - 1] == s@[p - 1]);
        }
    }
    let (contents, ws_and_nl) = line.take_split(p);
    assert(contents.s@ =~= line_content(s@));
    proof {
        assert forall|i: int| 0 <= i < ws_and_nl.s@.len() implies is_ascii_ws(
            #[trigger] ws_and_nl.s@[i],
        ) by {
            assert(ws_and_nl.s@[i] == line.s@[p + i]);
        }
    }
    let (nl, ws) = space0(ws_and_nl);
    proof {
        assert forall|i: int| 0 <= i < nl.s@.len() implies is_ascii_ws(#[trigger] nl.s@[i]) by {
            assert(nl.s@[i] == ws_and_nl.s@[ws.s@.len() + i]);
        }
        let l = contents.s@ + ws.s@ + nl.s@;
        assert(l =~= line.s@);
        if contents.s@.len() > 0 {
            assert(contents.s@.last() == line.s@[p - 1]);
        }
        if rest.s@.len() > 0 {
            assert(n < s@.len());
            assert(l.last() == s@[line_end - 1]);
        }
    }
    (rest, (contents, ws, nl))
}

/// The positions at which a line starts: zero, and each position just after a `\n`.
pub fn line_starts_iter(s: &[char]) -> (r: Vec<usize>)
    ensures
        r@.len() > 0 && r@[0] == 0,
        forall|i: int, j: int| 0 <= i < j < r@.len() ==> r@[i] < r@[j],
        forall|i: int| 0 < i < r@.len() ==> s@[#[trigger] r@[i] - 1] == '\n',
        forall|q: int|
            0 <= q < s@.len() && #[trigger] s@[q] == '\n' ==> exists|i: int|
                0 <= i < r@.len() && #[trigger] r@[i] == q + 1,
{
    let mut r: Vec<usize> = vec![0];
    let mut i: usize = 0;
    while i < s.len()
        invariant
            i <= s@.len(),
            r@.len() > 0 && r@[0] == 0,
            forall|a: int, b: int| 0 <= a < b < r@.len() ==> r@[a] < r@[b],
            forall|a: int| 0 <= a < r@.len() ==> #[trigger] r@[a] <= i,
            forall|a: int| 0 < a < r@.len() ==> s@[#[trigger] r@[a] - 1] == '\n',
            forall|q: int|
                0 <= q < i && #[trigger] s@[q] == '\n' ==> exists|a: int|
                    0 <= a < r@.len() && #[trigger] r@[a] == q + 1,
        decreases s@.len() - i,
    {
        let ghost prev = r@;
        if s[i] == '\n' {
            r.push(i + 1);
            assert(r@[r@.len() - 1] == i + 1);
        }
        assert forall|q: int| 0 <= q < i + 1 && #[trigger] s@[q] == '\n' implies exists|a: int|
            0 <= a < r@.len() && #[trigger] r@[a] == q + 1 by {
            if q < i {
                let a = choose|a: int| 0 <= a < prev.len() && #[trigger] prev[a] == q + 1;
                assert(r@[a] == q + 1);
            } else {
                assert(r@[r@.len() - 1] == q + 1);
            }
        }
        i = i + 1;
    }
    r
}

/// The positions at which a line ends: each position just after a `\n`, and
/// the end of `s`.
pub fn line_ends_iter(s: &[char]) -> (r: Vec<usize>)
    ensures
        r@.len() > 0 && r@.last() == s@.len(),
        forall|i: int, j: int| 0 <= i < j < r@.len() ==> r@[i] < r@[j] || (j == r@.len() - 1
            && r@[i] == r@[j]),
        forall|i: int| 0 <= i < r@.len() - 1 ==> s@[#[trigger] r@[i] - 1] == '\n' && r@[i] > 0,
        forall|q: int|
            0 <= q < s@.len() && #[trigger] s@[q] == '\n' ==> exists|i: int|
                0 <= i < r@.len() && #[trigger] r@[i] == q + 1,
{
    let mut r: Vec<usize> = Vec::new();
    let mut i: usize = 0;
    while i < s.len()
        invariant
            i <= s@.len(),
            forall|a: int, b: int| 0 <= a < b < r@.len() ==> r@[a] < r@[b],
            forall|a: int| 0 <= a < r@.len() ==> #[trigger] r@[a] <= i,
            forall|a: int| 0 <= a < r@.len() ==> s@[#[trigger] r@[a] - 1] == '\n' && r@[a] > 0,
            forall|q: int|
                0 <= q < i && #[trigger] s@[q] == '\n' ==> exists|a: int|
                    0 <= a < r@.len() && #[trigger] r@[a] == q + 1,
        decreases s@.len() - i,
    {
        let ghost prev = r@;
        if s[i] == '\n' {
            r.push(i + 1);
            assert(r@[r@.len() - 1] == i + 1);
        }
        assert forall|q: int| 0 <= q < i + 1 && #[trigger] s@[q] == '\n' implies exists|a: int|
            0 <= a < r@.len() && #[trigger] r@[a] == q + 1 by {
            if q < i {
                let a = choose|a: int| 0 <= a < prev.len() && #[trigger] prev[a] == q + 1;
                assert(r@[a] == q + 1);
            } else {
                assert(r@[r@.len() - 1] == q + 1);
            }
        }
        i = i + 1;
    }
    let ghost prev = r@;
    r.push(s.len());
    assert forall|q: int| 0 <= q < s@.len() && #[trigger] s@[q] == '\n' implies exists|a: int|
        0 <= a < r@.len() && #[trigger] r@[a] == q + 1 by {
        let a = choose|a: int| 0 <= a < prev.len() && #[trigger] prev[a] == q + 1;
        assert(r@[a] == q + 1);
    }
    r
}

/// A buffer of children from which a node is finished.
pub struct NodeBuilder {
    pub children: Vec<GreenElement>,
}

/// `new` is `old` with `e` appended.
pub open spec fn pushed(old: Seq<GreenElement>, new: Seq<GreenElement>, e: GreenElement) -> bool {
    new.len() == old.len() + 1 && new.drop_last() == old && new.last() == e
}

/// `new` is `old` with a token of kind `k` and text `t` appended, or, where
/// `t` is empty, `old` itself.
pub open spec fn pushed_token_opt(
    old: Seq<GreenElement>,
    new: Seq<GreenElement>,
    k: SyntaxKind,
    t: Seq<char>,
) -> bool {
    if t.len() == 0 {
        new == old
    } else {
        new.len() == old.len() + 1 && new.drop_last() == old && is_token(new.last(), k, t)
    }
}

impl NodeBuilder {
    pub fn new() -> (r: NodeBuilder)
        ensures
            r.children@.len() == 0,
    {
        NodeBuilder { children: Vec::new() }
    }

    /// Appends a `WHITESPACE` token, unless `i` is empty.
    pub fn ws(&mut self, i: Input)
        requires
            all_ws(i.s@),
        ensures
            pushed_token_opt(old(self).children@, final(self).children@, SyntaxKind::WHITESPACE, i.s@),
            seq_text(final(self).children@) == seq_text(old(self).children@) + i.s@,
    {
        if !i.is_empty() {
            self.token(SyntaxKind::WHITESPACE, i);
        } else {
            assert(seq_text(old(self).children@) + i.s@ =~= seq_text(old(self).children@));
        }
    }

    /// Appends a `NEW_LINE` token, unless `i` is empty.
    pub fn nl(&mut self, i: Input)
        requires
            all_ws(i.s@),
        ensures
            pushed_token_opt(old(self).children@, final(self).children@, SyntaxKind::NEW_LINE, i.s@),
            seq_text(final(self).children@) == seq_text(old(self).children@) + i.s@,
    {
        if !i.is_empty() {
            self.token(SyntaxKind::NEW_LINE, i);
        } else {
            assert(seq_text(old(self).children@) + i.s@ =~= seq_text(old(self).children@));
        }
    }

    /// Appends a `TEXT` token.
    pub fn text(&mut self, i: Input)
        ensures
            final(self).children@.len() == old(self).children@.len() + 1,
            final(self).children@.drop_last() == old(self).children@,
            is_token(final(self).children@.last(), SyntaxKind::TEXT, i.s@),
            seq_text(final(self).children@) == seq_text(old(self).children@) + i.s@,
    {
        self.token(SyntaxKind::TEXT, i)
    }

    /// Appends a token of `kind`.
    pub fn token(&mut self, kind: SyntaxKind, i: Input)
        ensures
            final(self).children@.len() == old(self).children@.len() + 1,
            final(self).children@.drop_last() == old(self).children@,
            is_token(final(self).children@.last(), kind, i.s@),
            seq_text(final(self).children@) == seq_text(old(self).children@) + i.s@,
    {
        let t = i.token(kind);
        proof {
            lemma_seq_text_push(self.children@, t);
        }
        self.children.push(t);
        assert(self.children@.drop_last() =~= old(self).children@);
    }

    pub fn push(&mut self, elem: GreenElement)
        ensures
            pushed(old(self).children@, final(self).children@, elem),
            seq_text(final(self).children@) == seq_text(old(self).children@) + elem_text(elem),
    {
        proof {
            lemma_seq_text_push(self.children@, elem);
        }
        self.children.push(elem);
        assert(self.children@.drop_last() =~= old(self).children@);
    }

    pub fn push_opt(&mut self, elem: Option<GreenElement>)
        ensures
            elem matches Some(e) ==> pushed(old(self).children@, final(self).children@, e),
            elem is None ==> final(self).children@ == old(self).children@,
            seq_text(final(self).children@) == seq_text(old(self).children@) + match elem {
                Some(e) => elem_text(e),
                None => Seq::empty(),
            },
    {
        match elem {
            Some(e) => self.push(e),
            None => {
                assert(seq_text(old(self).children@) + Seq::<char>::empty() =~= seq_text(
                    old(self).children@,
                ));
            },
        }
    }

    pub fn len(&self) -> (r: usize)
        ensures
            r == self.children@.len(),
    {
        self.children.len()
    }

    /// A node of `kind` holding the children gathered so far.
    pub fn finish(self, kind: SyntaxKind) -> (r: GreenElement)
        ensures
            is_node(r, kind),
            elem_children(r) == self.children@,
            elem_text(r) == seq_text(self.children@),
    {
        node(kind, self.children)
    }
}

} // verus!
