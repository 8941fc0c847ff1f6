use vstd::prelude::*;
use crate::combinator::{NodeBuilder, all_ws, is_ascii_ws, space0, trim_line_end};
use crate::combinator::is_single_line;
use crate::headline::{is_headline_start, starts_headline};
use crate::input::Input;
use crate::kind::SyntaxKind;
use crate::shape::{all_well_formed, lemma_all_step, lemma_plain_elem, well_formed};
use crate::tree::{GreenElement, elem_kind, elem_text, is_node, seq_text};

verus! {

/// The code of `c` with ASCII upper case folded to lower case.
pub open spec fn ascii_lower(c: char) -> int {
    if 'A' <= c && c <= 'Z' {
        (c as u32) + 32
    } else {
        c as u32 as int
    }
}

/// `s` is `word` (given in upper case) in any ASCII case.
pub open spec fn equals_ignore_case(s: Seq<char>, word: Seq<char>) -> bool {
    s.len() == word.len() && forall|i: int| 0 <= i < s.len() ==> ascii_lower(#[trigger] s[i]) == ascii_lower(word[i])
}

fn to_lower(c: char) -> (r: u32)
    ensures
        r == ascii_lower(c),
{
    if 'A' <= c && c <= 'Z' {
        (c as u32) + 32
    } else {
        c as u32
    }
}

pub fn eq_ignore_case(s: &[char], word: &[char]) -> (r: bool)
    ensures
        r == equals_ignore_case(s@, word@),
{
    if s.len() != word.len() {
        return false;
    }
    let mut i: usize = 0;
    while i < s.len()
        invariant
            s@.len() == word@.len(),
            i <= s@.len(),
            forall|k: int| 0 <= k < i ==> ascii_lower(#[trigger] s@[k]) == ascii_lower(word@[k]),
        decreases s@.len() - i,
    {
        if to_lower(s[i]) != to_lower(word[i]) {
            return false;
        }
        i = i + 1;
    }
    true
}

/// Appends a token when its text is not empty.
fn push_token_opt(b: &mut NodeBuilder, kind: SyntaxKind, i: Input)
    requires
        all_well_formed(old(b).children@),
    ensures
        seq_text(final(b).children@) == seq_text(old(b).children@) + i.s@,
        all_well_formed(final(b).children@),
{
    if i.len() > 0 {
        let ghost c = b.children@;
        b.token(kind, i);
        proof { lemma_all_step(c, b.children@); }
    } else {
        assert(seq_text(b.children@) + i.s@ =~= seq_text(b.children@));
    }
}

/// The content `lc` of a line has a `:` after its blanks.
pub open spec fn drawer_start(lc: Seq<char>) -> bool {
    crate::timestamp::blank_run(lc, 0) < lc.len() && lc[crate::timestamp::blank_run(lc, 0) as int] == ':'
}

/// Appends the tokens of a line `[ws] : WORD :`, where its content has that shape
/// and `WORD` is `word` in any case.
fn marker_line(b: &mut NodeBuilder, content: Input, word: &[char]) -> (r: bool)
    requires
        all_well_formed(old(b).children@),
    ensures
        r ==> seq_text(final(b).children@) == seq_text(old(b).children@) + content.s@,
        r ==> content.s@.len() > 0 && content.s@[0] != '*',
        r ==> drawer_start(content.s@),
        !r ==> final(b).children@ == old(b).children@,
        all_well_formed(final(b).children@),
{
    let (after_ws, lead) = space0(content);
    let n = after_ws.len();
    proof {
        if after_ws.s@.len() > 0 {
            assert(content.s@[lead.s@.len() as int] == after_ws.s@[0]);
        }
        if lead.s@.len() > 0 {
            assert(content.s@[0] == lead.s@[0]);
        }
    }
    if n < 2 || after_ws.s[0] != ':' || after_ws.s[n - 1] != ':' || !eq_ignore_case(
        crate::input::slice_range(after_ws.s, 1, n - 1),
        word,
    ) {
        return false;
    }
    proof {
        let c = content.s@;
        assert forall|k: int| 0 <= k < lead.s@.len() implies crate::timestamp::is_blank(#[trigger] c[k]) by {
            assert(c[k] == lead.s@[k]);
        }
        crate::timestamp::lemma_blank_run_exact(c, 0, lead.s@.len() as int);
    }
    push_token_opt(b, SyntaxKind::WHITESPACE, lead);
    push_token_opt(b, SyntaxKind::COLON, after_ws.slice(0, 1));
    push_token_opt(b, SyntaxKind::TEXT, after_ws.slice(1, n - 1));
    push_token_opt(b, SyntaxKind::COLON, after_ws.slice(n - 1, n));
    proof {
        assert(content.s@ =~= lead.s@ + after_ws.s@.subrange(0, 1) + after_ws.s@.subrange(1, n - 1)
            + after_ws.s@.subrange(n - 1, n as int));
    }
    true
}

/// Where `s` starts with `:KEY:` (a key without whitespace), the position of
/// the colon that closes the key.
fn property_key_end(s: &[char]) -> (r: Option<usize>)
    ensures
        r matches Some(k) ==> 1 < k < s@.len() && s@[k as int] == ':',
{
    if s.len() < 3 || s[0] != ':' {
        return None;
    }
    let mut k: usize = 1;
    while k < s.len() && s[k] != ':' && !crate::combinator::is_ascii_whitespace(s[k])
        invariant
            1 <= k <= s@.len(),
        decreases s@.len() - k,
    {
        k = k + 1;
    }
    if k >= s.len() || s[k] != ':' || k == 1 {
        return None;
    }
    Some(k)
}

/// Parses the content of a node property line `[ws] :KEY[+]: [VALUE]` into
/// its tokens.
fn push_four(b: &mut NodeBuilder, lead: Input, colon1: Input, key: Input, plus: Input)
    requires
        all_well_formed(old(b).children@),
    ensures
        seq_text(final(b).children@) == seq_text(old(b).children@) + lead.s@ + colon1.s@ + key.s@
            + plus.s@,
        all_well_formed(final(b).children@),
{
    push_token_opt(b, SyntaxKind::WHITESPACE, lead);
    push_token_opt(b, SyntaxKind::COLON, colon1);
    push_token_opt(b, SyntaxKind::TEXT, key);
    push_token_opt(b, SyntaxKind::PLUS, plus);
}

fn push_tail(b: &mut NodeBuilder, colon2: Input, value_ws: Input, value: Input)
    requires
        all_well_formed(old(b).children@),
    ensures
        seq_text(final(b).children@) == seq_text(old(b).children@) + colon2.s@ + value_ws.s@
            + value.s@,
        all_well_formed(final(b).children@),
{
    push_token_opt(b, SyntaxKind::COLON, colon2);
    push_token_opt(b, SyntaxKind::WHITESPACE, value_ws);
    push_token_opt(b, SyntaxKind::TEXT, value);
}

#[verifier::rlimit(80)]
fn node_property_tokens(b: &mut NodeBuilder, content: Input) -> (r: bool)
    requires
        all_well_formed(old(b).children@),
    ensures
        r ==> seq_text(final(b).children@) == seq_text(old(b).children@) + content.s@,
        !r ==> final(b).children@ == old(b).children@,
        all_well_formed(final(b).children@),
{
    let (after_ws, lead) = space0(content);
    let s = after_ws.s;
    let k = match property_key_end(s) {
        Some(k) => k,
        None => {
            return false;
        },
    };
    let plus = s[k - 1] == '+' && k > 2;
    let key_end = if plus { k - 1 } else { k };
    let (colon1, r1) = after_ws.take_split(1);
    let (key, r2) = r1.take_split(key_end - 1);
    let (plus_t, r3) = r2.take_split(k - key_end);
    let (colon2, r4) = r3.take_split(1);
    let (value, value_ws) = space0(r4);
    if value_ws.len() == 0 && value.len() > 0 {
        return false;
    }
    let ghost t0 = seq_text(b.children@);
    push_four(b, lead, colon1, key, plus_t);
    let ghost t1 = seq_text(b.children@);
    push_tail(b, colon2, value_ws, value);
    proof {
        let tail = colon2.s@ + value_ws.s@ + value.s@;
        assert(r3.s@ =~= tail);
        assert(content.s@ =~= lead.s@ + colon1.s@ + key.s@ + plus_t.s@ + r3.s@);
        assert(t1 == t0 + lead.s@ + colon1.s@ + key.s@ + plus_t.s@);
        assert(seq_text(b.children@) == t1 + colon2.s@ + value_ws.s@ + value.s@);
        assert(seq_text(b.children@) =~= t0 + content.s@);
    }
    true
}

/// No headline starts at a line start of `s` in `[lo, hi)`.
pub open spec fn no_headline_lines(s: Seq<char>, lo: int, hi: int) -> bool {
    forall|q: int|
        lo <= q < hi && (q == 0 || s[q - 1] == '\n') ==> !starts_headline(#[trigger] s.subrange(q, s.len() as int))
}

/// Extending the range by a single line that does not start a headline.
pub proof fn lemma_no_headline_line(s: Seq<char>, p: int, l: int)
    requires
        0 <= p,
        0 < l,
        p + l <= s.len(),
        no_headline_lines(s, 0, p),
        is_single_line(s.subrange(p, p + l)),
        !starts_headline(s.subrange(p, s.len() as int)),
    ensures
        no_headline_lines(s, 0, p + l),
{
    assert forall|q: int| 0 <= q < p + l && (q == 0 || s[q - 1] == '\n') implies !starts_headline(
        #[trigger] s.subrange(q, s.len() as int),
    ) by {
        if q > p {
            let line = s.subrange(p, p + l);
            assert(line[q - 1 - p] == s[q - 1]);
        }
    }
}

/// Parses a property drawer: a `:PROPERTIES:` line, node property lines and an
/// `:END:` line. Without its `:END:` the drawer is not admitted.
pub(crate) fn property_drawer_node<'a>(input: Input<'a>) -> (r: Option<(Input<'a>, GreenElement)>)
    ensures
        r matches Some((rest, e)) ==> {
            &&& input.s@ == elem_text(e) + rest.s@
            &&& is_node(e, SyntaxKind::PROPERTY_DRAWER)
            &&& well_formed(e)
            &&& rest.c == input.c
            &&& no_headline_lines(input.s@, 0, elem_text(e).len() as int)
            &&& drawer_start(crate::combinator::line_content(input.s@))
            &&& elem_text(e).len() > 0
        },
{
    let properties = ['P', 'R', 'O', 'P', 'E', 'R', 'T', 'I', 'E', 'S'];
    let end = ['E', 'N', 'D'];
    let (rest, (content, ws, nl)) = trim_line_end(input);
    if nl.len() == 0 {
        return None;
    }
    let mut b = NodeBuilder::new();
    assert(seq_text(b.children@) =~= Seq::<char>::empty());
    if !marker_line(&mut b, content, &properties) {
        return None;
    }
    push_token_opt(&mut b, SyntaxKind::WHITESPACE, ws);
    push_token_opt(&mut b, SyntaxKind::NEW_LINE, nl);
    assert(input.s@ =~= seq_text(b.children@) + rest.s@);
    proof {
        let line = content.s@ + ws.s@ + nl.s@;
        assert(input.s@.subrange(0, line.len() as int) =~= line);
        assert(input.s@[0] == content.s@[0]);
        assert(no_headline_lines(input.s@, 0, 0));
        assert(input.s@.subrange(0, input.s@.len() as int) =~= input.s@);
        lemma_no_headline_line(input.s@, 0, line.len() as int);
    }
    let mut cur = rest;
    loop
        invariant
            input.s@ == seq_text(b.children@) + cur.s@,
            all_well_formed(b.children@),
            cur.c == input.c,
            no_headline_lines(input.s@, 0, seq_text(b.children@).len() as int),
            seq_text(b.children@).len() > 0,
            drawer_start(crate::combinator::line_content(input.s@)),
        decreases cur.s@.len(),
    {
        if cur.is_empty() || is_headline_start(cur.s) {
            return None;
        }
        let (next, (c2, ws2, nl2)) = trim_line_end(cur);
        proof {
            let pp = seq_text(b.children@).len() as int;
            let line = c2.s@ + ws2.s@ + nl2.s@;
            assert(cur.s@ =~= input.s@.subrange(pp, input.s@.len() as int));
            assert(input.s@.subrange(pp, pp + line.len()) =~= line);
            lemma_no_headline_line(input.s@, pp, line.len() as int);
        }
        if marker_line(&mut b, c2, &end) {
            push_token_opt(&mut b, SyntaxKind::WHITESPACE, ws2);
            push_token_opt(&mut b, SyntaxKind::NEW_LINE, nl2);
            assert(input.s@ =~= seq_text(b.children@) + next.s@);
            let e = b.finish(SyntaxKind::PROPERTY_DRAWER);
            proof {
                lemma_plain_elem(e);
            }
            return Some((next, e));
        }
        if nl2.len() == 0 {
            return None;
        }
        let mut p = NodeBuilder::new();
        assert(seq_text(p.children@) =~= Seq::<char>::empty());
        if !node_property_tokens(&mut p, c2) {
            return None;
        }
        push_token_opt(&mut p, SyntaxKind::WHITESPACE, ws2);
        push_token_opt(&mut p, SyntaxKind::NEW_LINE, nl2);
        let prop = p.finish(SyntaxKind::NODE_PROPERTY);
        proof {
            lemma_plain_elem(prop);
        }
        let ghost c = b.children@;
        b.push(prop);
        proof {
            lemma_all_step(c, b.children@);
            assert(input.s@ =~= seq_text(b.children@) + next.s@);
        }
        cur = next;
    }
}

} // verus!
