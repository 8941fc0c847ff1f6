use vstd::prelude::*;
use crate::combinator::{NodeBuilder, all_ws, line_content, space0, trim_line_end};
use crate::input::Input;
use crate::kind::SyntaxKind;
use crate::timestamp::{blank_run, is_blank, lemma_blank_run_bound, lemma_blank_run_exact, timestamp_len, timestamp_node};
use crate::shape::{all_well_formed, lemma_all_step, lemma_plain_elem, well_formed};
use crate::tree::{GreenElement, elem_text, is_node, seq_text};

verus! {

/// The length of the planning keyword (`CLOSED`, `DEADLINE` or `SCHEDULED`)
/// that `s` starts with, followed by a colon; zero where there is none.
pub open spec fn planning_keyword_len(s: Seq<char>) -> int {
    if s.len() > 6 && s.subrange(0, 6) == seq!['C', 'L', 'O', 'S', 'E', 'D'] && s[6] == ':' {
        6
    } else if s.len() > 8 && s.subrange(0, 8) == seq!['D', 'E', 'A', 'D', 'L', 'I', 'N', 'E']
        && s[8] == ':' {
        8
    } else if s.len() > 9 && s.subrange(0, 9) == seq!['S', 'C', 'H', 'E', 'D', 'U', 'L', 'E', 'D']
        && s[9] == ':' {
        9
    } else {
        0
    }
}

/// The length of the planning group `KEYWORD: <timestamp>` that `s` starts with.
pub open spec fn group_len(s: Seq<char>) -> Option<int> {
    let n = planning_keyword_len(s);
    let q = n + 1;
    if n == 0 {
        None
    } else {
        match timestamp_len(s.subrange(q + blank_run(s, q), s.len() as int)) {
            Some(m) => Some(q + blank_run(s, q) + m),
            None => None,
        }
    }
}

fn word_at_start(s: &[char], word: &[char]) -> (r: bool)
    ensures
        r == (s@.len() > word@.len() && s@.subrange(0, word@.len() as int) == word@ && s@[word@.len() as int] == ':'),
{
    if s.len() <= word.len() {
        return false;
    }
    crate::text::chars_eq(crate::input::slice_range(s, 0, word.len()), word) && s[word.len()] == ':'
}

/// The planning keyword that `s` starts with, followed by a colon: its
/// length and the kind of group it opens.
fn planning_keyword(s: &[char]) -> (r: Option<(usize, SyntaxKind)>)
    ensures
        match r {
            Some((n, k)) => n == planning_keyword_len(s@) && n > 0 && (k == SyntaxKind::PLANNING_CLOSED
                || k == SyntaxKind::PLANNING_DEADLINE || k == SyntaxKind::PLANNING_SCHEDULED),
            None => planning_keyword_len(s@) == 0,
        },
{
    let closed = ['C', 'L', 'O', 'S', 'E', 'D'];
    let deadline = ['D', 'E', 'A', 'D', 'L', 'I', 'N', 'E'];
    let scheduled = ['S', 'C', 'H', 'E', 'D', 'U', 'L', 'E', 'D'];
    proof {
        assert(closed@ == seq!['C', 'L', 'O', 'S', 'E', 'D']);
        assert(deadline@ == seq!['D', 'E', 'A', 'D', 'L', 'I', 'N', 'E']);
        assert(scheduled@ == seq!['S', 'C', 'H', 'E', 'D', 'U', 'L', 'E', 'D']);
    }
    if word_at_start(s, &closed) {
        Some((6, SyntaxKind::PLANNING_CLOSED))
    } else if word_at_start(s, &deadline) {
        Some((8, SyntaxKind::PLANNING_DEADLINE))
    } else if word_at_start(s, &scheduled) {
        Some((9, SyntaxKind::PLANNING_SCHEDULED))
    } else {
        None
    }
}

/// Where `s[q..]` is blanks `ws` followed by `rest`, which does not start
/// with a blank, `rest` starts at `q + blank_run(s, q)`.
proof fn lemma_blanks_after(s: Seq<char>, q: int, tail: Seq<char>, ws: Seq<char>, rest: Seq<char>)
    requires
        0 <= q <= s.len(),
        tail == s.subrange(q, s.len() as int),
        tail == ws + rest,
        forall|k: int| 0 <= k < ws.len() ==> is_blank(#[trigger] ws[k]),
        rest.len() == 0 || !is_blank(rest[0]),
    ensures
        rest == s.subrange(q + blank_run(s, q), s.len() as int),
{
    assert(tail.len() == ws.len() + rest.len());
    assert forall|k: int| q <= k < q + ws.len() implies is_blank(#[trigger] s[k]) by {
        assert(tail[k - q] == s[k]);
        assert(tail[k - q] == ws[k - q]);
    }
    assert forall|k: int| 0 <= k < rest.len() implies #[trigger] rest[k] == s[q + ws.len() + k] by {
        assert(tail[ws.len() + k] == rest[k]);
        assert(tail[ws.len() + k] == s[q + ws.len() + k]);
    }
    if q + ws.len() < s.len() {
        assert(tail[ws.len() as int] == s[q + ws.len()]);
        assert(tail[ws.len() as int] == rest[0]);
    }
    lemma_blank_run_exact(s, q, ws.len() as int);
    assert(rest =~= s.subrange(q + ws.len(), s.len() as int));
}

/// Parses one `KEYWORD: <timestamp>` group into a node of the keyword's kind.
fn planning_group<'a>(input: Input<'a>) -> (r: Option<(Input<'a>, GreenElement)>)
    ensures
        r is Some <==> group_len(input.s@) is Some,
        r matches Some((rest, e)) ==> input.s@ == elem_text(e) + rest.s@ && rest.c == input.c
            && rest.s@.len() < input.s@.len() && e is Node && well_formed(e)
            && 0 < group_len(input.s@)->0 <= input.s@.len()
            && rest.s@ == input.s@.subrange(group_len(input.s@)->0, input.s@.len() as int),
{
    let (n, kind) = match planning_keyword(input.s) {
        Some(x) => x,
        None => {
            return None;
        },
    };
    let (word, after_word) = input.take_split(n);
    let (colon, after_colon) = after_word.take_split(1);
    let (after_ws, ws) = space0(after_colon);
    proof {
        assert(after_colon.s@ =~= input.s@.subrange(n + 1, input.s@.len() as int));
        lemma_blanks_after(input.s@, (n + 1) as int, after_colon.s@, ws.s@, after_ws.s@);
    }
    let (rest, ts) = match timestamp_node(after_ws) {
        Some(x) => x,
        None => {
            return None;
        },
    };
    let mut b = NodeBuilder::new();
    assert(seq_text(b.children@) =~= Seq::<char>::empty());
    let ghost c0 = b.children@;
    b.token(SyntaxKind::PLANNING_KEYWORD, word);
    proof { lemma_all_step(c0, b.children@); }
    let ghost c1 = b.children@;
    b.token(SyntaxKind::COLON, colon);
    proof {
        lemma_all_step(c1, b.children@);
        assert forall|i: int| 0 <= i < ws.s@.len() implies crate::combinator::is_ascii_ws(#[trigger] ws.s@[i]) by {}
    }
    let ghost c2 = b.children@;
    b.ws(ws);
    proof { lemma_all_step(c2, b.children@); }
    let ghost c3 = b.children@;
    b.push(ts);
    proof { lemma_all_step(c3, b.children@); }
    let ghost cs = b.children@;
    let e = b.finish(kind);
    proof {
        lemma_plain_elem(e);
    }
    assert(input.s@ =~= elem_text(e) + rest.s@);
    proof {
        let all = input.s@;
        let q = n + 1;
        let w = blank_run(all, q as int);
        let m = elem_text(ts).len();
        let g = group_len(all)->0;
        lemma_blank_run_bound(all, q as int);
        assert(g == q + w + m);
        assert(after_ws.s@ == all.subrange(q + w, all.len() as int));
        assert forall|k: int| 0 <= k < rest.s@.len() implies #[trigger] rest.s@[k] == all[g + k] by {
            assert(after_ws.s@[m + k] == rest.s@[k]);
            assert(all.subrange(q + w, all.len() as int)[m + k] == all[q + w + m + k]);
        }
        assert(rest.s@ =~= all.subrange(g, all.len() as int));
    }
    Some((rest, e))
}

/// The content `lc` of a line opens with a planning keyword after its blanks.
pub open spec fn planning_start(lc: Seq<char>) -> bool {
    planning_keyword_len(lc.subrange(blank_run(lc, 0) as int, lc.len() as int)) > 0
}

/// Parses a planning line: one or more `CLOSED:`, `DEADLINE:` or
/// `SCHEDULED:` groups, each with a timestamp, and nothing else on the line.
pub(crate) fn planning_node<'a>(input: Input<'a>) -> (r: Option<(Input<'a>, GreenElement)>)
    ensures
        r matches Some((rest, e)) ==> {
            &&& input.s@ == elem_text(e) + rest.s@
            &&& is_node(e, SyntaxKind::PLANNING)
            &&& well_formed(e)
            &&& rest.c == input.c
            &&& crate::combinator::is_single_line(elem_text(e))
            &&& elem_text(e).len() > 0
            &&& input.s@[0] != '*'
            &&& planning_start(line_content(input.s@))
        },
{
    let (rest, (content, ws_end, nl)) = trim_line_end(input);
    let mut b = NodeBuilder::new();
    assert(seq_text(b.children@) =~= Seq::<char>::empty());
    let (cur0, lead) = space0(content);
    proof {
        assert forall|i: int| 0 <= i < lead.s@.len() implies crate::combinator::is_ascii_ws(#[trigger] lead.s@[i]) by {}
    }
    let ghost c0 = b.children@;
    b.ws(lead);
    proof { lemma_all_step(c0, b.children@); }
    let mut cur = cur0;
    let mut groups: usize = 0;
    let ghost first_ok = cur0.s@.len() == 0 || lead.s@.len() > 0;
    while !cur.is_empty()
        invariant
            content.s@ == seq_text(b.children@) + cur.s@,
            cur.c == input.c,
            groups > 0 ==> (lead.s@.len() > 0 || (cur0.s@.len() > 0 && cur0.s@[0] != '*')),
            groups == 0 ==> cur.s@ == cur0.s@,
            groups > 0 ==> planning_keyword_len(cur0.s@) > 0,
            content.s@ == lead.s@ + cur0.s@,
            all_well_formed(b.children@),
        decreases cur.s@.len(),
    {
        let ghost was_first = cur.s@ == cur0.s@;
        let (after, g) = match planning_group(cur) {
            Some(x) => x,
            None => {
                return None;
            },
        };
        proof {
            let n = planning_keyword_len(cur.s@);
            assert(n > 0);
            if n == 6 {
                assert(cur.s@.subrange(0, 6)[0] == cur.s@[0]);
            } else if n == 8 {
                assert(cur.s@.subrange(0, 8)[0] == cur.s@[0]);
            } else {
                assert(cur.s@.subrange(0, 9)[0] == cur.s@[0]);
            }
        }
        let ghost c1 = b.children@;
        b.push(g);
        proof { lemma_all_step(c1, b.children@); }
        let (next, ws) = space0(after);
        proof {
            assert forall|i: int| 0 <= i < ws.s@.len() implies crate::combinator::is_ascii_ws(#[trigger] ws.s@[i]) by {}
        }
        let ghost c2 = b.children@;
        b.ws(ws);
        proof { lemma_all_step(c2, b.children@); }
        cur = next;
        groups = if groups < 1 { groups + 1 } else { groups };
    }
    if groups == 0 {
        return None;
    }
    let ghost c3 = b.children@;
    b.ws(ws_end);
    proof { lemma_all_step(c3, b.children@); }
    let ghost c4 = b.children@;
    b.nl(nl);
    proof { lemma_all_step(c4, b.children@); }
    let ghost cs = b.children@;
    let e = b.finish(SyntaxKind::PLANNING);
    proof {
        let lc = content.s@;
        assert(cur0.s@.len() > 0);
        assert forall|k: int| 0 <= k < lead.s@.len() implies crate::timestamp::is_blank(#[trigger] lc[k]) by {
            assert(lc[k] == lead.s@[k]);
        }
        assert(lc[lead.s@.len() as int] == cur0.s@[0]);
        crate::timestamp::lemma_blank_run_exact(lc, 0, lead.s@.len() as int);
        assert(lc.subrange(lead.s@.len() as int, lc.len() as int) =~= cur0.s@);
        let line = content.s@ + ws_end.s@ + nl.s@;
        assert(input.s@ == line + rest.s@);
        assert(input.s@[0] == line[0]);
        if lead.s@.len() > 0 {
            assert(line[0] == lead.s@[0]);
        } else {
            assert(line[0] == cur0.s@[0]);
        }
    }
    proof {
        lemma_plain_elem(e);
    }
    assert(input.s@ =~= elem_text(e) + rest.s@);
    Some((rest, e))
}

} // verus!
