use vstd::prelude::*;
use crate::input::{Input, slice_range};
use crate::kind::SyntaxKind;
use crate::combinator::{NodeBuilder, elem_offset, lemma_offsets_push};
use crate::timestamp::{
    layout_matches, timestamp_layout,
    all_tokens, is_timestamp_kind, lemma_timestamp_start, take_token, timestamp_kind_of,
    timestamp_len, timestamp_node,
};
use crate::shape::{all_well_formed, lemma_flat_well_formed, well_formed};
use crate::tree::{GreenElement, elem_children, elem_text, is_node, is_token, lemma_seq_text_push, seq_text, token};

verus! {

/// The kinds of the objects recognised inside titles and paragraphs.
pub open spec fn is_object_kind(k: SyntaxKind) -> bool {
    is_timestamp_kind(k) || k == SyntaxKind::LINK || k == SyntaxKind::TARGET || k
        == SyntaxKind::RADIO_TARGET || k == SyntaxKind::FOOTNOTE_REFERENCE || k == SyntaxKind::MACRO
        || k == SyntaxKind::SNIPPET
}

/// An object: a `TEXT` token, or an object node whose children are tokens.
pub open spec fn object_ok(e: GreenElement) -> bool {
    ||| e matches GreenElement::Token(t) && t.kind == SyntaxKind::TEXT
    ||| (e matches GreenElement::Node(n) && is_object_kind(n.kind) && all_tokens(n.children@))
}

/// `pat` occurs in `s` at `j`.
pub open spec fn occurs_at(s: Seq<char>, j: int, pat: Seq<char>) -> bool {
    0 <= j && pat.len() <= s.len() - j && s.subrange(j, j + pat.len()) == pat
}

/// The first position from `j` on that holds a line break or where `close`
/// occurs, or the end.
pub open spec fn close_stop(s: Seq<char>, close: Seq<char>, j: int) -> int
    decreases s.len() - j,
{
    if j < 0 || j >= s.len() || s[j] == '\n' || occurs_at(s, j, close) {
        j
    } else {
        close_stop(s, close, j + 1)
    }
}

/// The length of `open BODY close` at the start of `s`: a non-empty body
/// without line breaks, ending at the first `close`.
pub open spec fn enclosed_len(s: Seq<char>, open: Seq<char>, close: Seq<char>) -> Option<int> {
    if open.len() == 0 || close.len() == 0 || !occurs_at(s, 0, open) {
        None
    } else {
        let j = close_stop(s, close, open.len() as int);
        if j >= s.len() || s[j] == '\n' || j == open.len() {
            None
        } else {
            Some(j + close.len())
        }
    }
}

/// The length of the object at the start of `s`, trying in order: link,
/// footnote reference, radio target, target, timestamp, macro, export
/// snippet.
#[verifier::opaque]
pub open spec fn object_len(s: Seq<char>) -> Option<int> {
    if s.len() == 0 {
        None
    } else if s[0] == '[' {
        if enclosed_len(s, seq!['[', '['], seq![']', ']']) is Some {
            enclosed_len(s, seq!['[', '['], seq![']', ']'])
        } else if occurs_at(s, 0, seq!['[', 'f', 'n', ':']) && enclosed_len(s, seq!['['], seq![']']) is Some {
            enclosed_len(s, seq!['['], seq![']'])
        } else {
            timestamp_len(s)
        }
    } else if s[0] == '<' {
        if enclosed_len(s, seq!['<', '<', '<'], seq!['>', '>', '>']) is Some {
            enclosed_len(s, seq!['<', '<', '<'], seq!['>', '>', '>'])
        } else if enclosed_len(s, seq!['<', '<'], seq!['>', '>']) is Some {
            enclosed_len(s, seq!['<', '<'], seq!['>', '>'])
        } else {
            timestamp_len(s)
        }
    } else if s[0] == '{' {
        enclosed_len(s, seq!['{', '{', '{'], seq!['}', '}', '}'])
    } else if s[0] == '@' {
        enclosed_len(s, seq!['@', '@'], seq!['@', '@'])
    } else {
        None
    }
}

/// An element of a run of objects at `a` in `s`: text in which no object
/// starts, or an object covering exactly what its recognizer measures.
pub open spec fn object_at_ok(e: GreenElement, s: Seq<char>, a: int) -> bool {
    &&& (e matches GreenElement::Token(t) && t.kind == SyntaxKind::TEXT) ==> forall|q: int|
        a <= q < a + elem_text(e).len() ==> #[trigger] object_len(s.subrange(q, s.len() as int)) is None
    &&& e is Node ==> object_len(s.subrange(a, s.len() as int)) == Some(elem_text(e).len() as int)
}

/// No object starts at a character other than `[`, `<`, `{` and `@`.
proof fn lemma_object_len_plain(s: Seq<char>)
    requires
        s.len() > 0,
        s[0] != '[' && s[0] != '<' && s[0] != '{' && s[0] != '@',
    ensures
        object_len(s) is None,
{
    reveal(object_len);
}

proof fn lemma_push_object_ok(out: Seq<GreenElement>, e: GreenElement, s: Seq<char>)
    requires
        forall|k: int| 0 <= k < out.len() ==> object_at_ok(#[trigger] out[k], s, elem_offset(out, k)),
        object_at_ok(e, s, seq_text(out).len() as int),
    ensures
        forall|k: int| 0 <= k < out.len() + 1 ==> object_at_ok(#[trigger] out.push(e)[k], s, elem_offset(out.push(e), k)),
{
    assert forall|k: int| 0 <= k < out.len() + 1 implies object_at_ok(#[trigger] out.push(e)[k], s, elem_offset(out.push(e), k)) by {
        lemma_offsets_push(out, e, k);
        if k < out.len() {
            assert(out.push(e)[k] == out[k]);
        } else {
            assert(out.push(e)[k] == e);
            assert(out.subrange(0, k) =~= out);
        }
    }
}

/// Whether `pat` occurs in `s` at `at`.
fn starts_with_at(s: &[char], at: usize, pat: &[char]) -> (r: bool)
    requires
        at <= s@.len(),
    ensures
        r == (pat@.len() <= s@.len() - at && s@.subrange(at as int, at + pat@.len()) == pat@),
{
    if pat.len() > s.len() - at {
        return false;
    }
    crate::text::chars_eq(slice_range(s, at, at + pat.len()), pat)
}

/// Parses `open BODY close` into a node of `kind`: the opener, the body as
/// `TEXT`, the closer. The body is not empty, holds no line break, and ends
/// at the first `close`.
fn delimited<'a>(
    input: Input<'a>,
    open: &[char],
    close: &[char],
    open_kind: SyntaxKind,
    close_kind: SyntaxKind,
    kind: SyntaxKind,
) -> (r: Option<(Input<'a>, GreenElement)>)
    ensures
        r matches Some((rest, e)) ==> {
            &&& input.s@ == elem_text(e) + rest.s@
            &&& is_node(e, kind)
            &&& all_tokens(elem_children(e))
            &&& rest.c == input.c
            &&& elem_text(e).len() > 0
        },
        r is Some ==> open@.len() <= input.s@.len() && input.s@.subrange(0, open@.len() as int)
            == open@,
        r is Some <==> enclosed_len(input.s@, open@, close@) is Some,
        r matches Some((rest, e)) ==> elem_text(e).len() == enclosed_len(input.s@, open@, close@)->0,
{
    let s = input.s;
    if open.len() == 0 || close.len() == 0 || !starts_with_at(s, 0, open) {
        return None;
    }
    let mut j: usize = open.len();
    while j < s.len() && s[j] != '\n' && !starts_with_at(s, j, close)
        invariant
            open@.len() <= j <= s@.len(),
            close_stop(s@, close@, open@.len() as int) == close_stop(s@, close@, j as int),
        decreases s@.len() - j,
    {
        j = j + 1;
    }
    if j >= s.len() || s[j] == '\n' || j == open.len() {
        return None;
    }
    if !starts_with_at(s, j, close) {
        return None;
    }
    let mut b = NodeBuilder::new();
    assert(seq_text(b.children@) =~= Seq::<char>::empty());
    let cur = take_token(&mut b, input, open.len(), open_kind);
    let cur = take_token(&mut b, cur, j - open.len(), SyntaxKind::TEXT);
    let cur = take_token(&mut b, cur, close.len(), close_kind);
    assert(input.s@ =~= seq_text(b.children@) + cur.s@);
    let e = b.finish(kind);
    Some((cur, e))
}

/// Tries the object recognisers at the start of `input`, in a fixed order:
/// link, footnote reference, radio target, target, timestamp, macro, export
/// snippet.
fn object_at<'a>(input: Input<'a>) -> (r: Option<(Input<'a>, GreenElement)>)
    ensures
        r matches Some((rest, e)) ==> {
            &&& input.s@ == elem_text(e) + rest.s@
            &&& object_ok(e)
            &&& rest.c == input.c
            &&& elem_text(e).len() > 0
        },
        timestamp_len(input.s@) is Some ==> (r matches Some((rest, e)) && elem_text(e).len()
            == timestamp_len(input.s@)->0 && is_node(e, timestamp_kind_of(input.s@))
            && layout_matches(elem_children(e), timestamp_layout(input.s@))),
        r is Some <==> object_len(input.s@) is Some,
        r matches Some((rest, e)) ==> elem_text(e).len() == object_len(input.s@)->0 && e is Node,
{
    proof {
        reveal(object_len);
    }
    let s = input.s;
    if s.len() == 0 {
        return None;
    }
    let c = s[0];
    proof {
        reveal(object_len);
        if timestamp_len(s@) is Some {
            lemma_timestamp_start(s@);
        }
    }
    if c == '[' {
        let link = delimited(input, &['[', '['], &[']', ']'], SyntaxKind::L_BRACKET2, SyntaxKind::R_BRACKET2, SyntaxKind::LINK);
        if link.is_some() {
            return link;
        }
        let fn_mark = ['[', 'f', 'n', ':'];
        let lb = ['['];
        let rb = [']'];
        proof {
            assert(fn_mark@ == seq!['[', 'f', 'n', ':']);
            assert(lb@ == seq!['[']);
            assert(rb@ == seq![']']);
        }
        if starts_with_at(s, 0, &fn_mark) {
            let fnref = delimited(input, &lb, &rb, SyntaxKind::L_BRACKET, SyntaxKind::R_BRACKET, SyntaxKind::FOOTNOTE_REFERENCE);
            if fnref.is_some() {
                return fnref;
            }
        }
        return timestamp_node(input);
    }
    if c == '<' {
        let radio = delimited(input, &['<', '<', '<'], &['>', '>', '>'], SyntaxKind::L_ANGLE3, SyntaxKind::R_ANGLE3, SyntaxKind::RADIO_TARGET);
        if radio.is_some() {
            return radio;
        }
        let target = delimited(input, &['<', '<'], &['>', '>'], SyntaxKind::L_ANGLE2, SyntaxKind::R_ANGLE2, SyntaxKind::TARGET);
        if target.is_some() {
            return target;
        }
        return timestamp_node(input);
    }
    if c == '{' {
        return delimited(input, &['{', '{', '{'], &['}', '}', '}'], SyntaxKind::L_CURLY3, SyntaxKind::R_CURLY3, SyntaxKind::MACRO);
    }
    if c == '@' {
        return delimited(input, &['@', '@'], &['@', '@'], SyntaxKind::AT2, SyntaxKind::AT2, SyntaxKind::SNIPPET);
    }
    None
}

/// `cs` is what `object_nodes` makes of `t`: covering `t`, text where no
/// object starts and never two texts in a row, each object as its recognizer
/// measures it.
pub open spec fn objects_ok(cs: Seq<GreenElement>, t: Seq<char>) -> bool {
    &&& seq_text(cs) == t
    &&& forall|i: int| 0 <= i < cs.len() ==> object_ok(#[trigger] cs[i])
    &&& forall|k: int| 0 <= k < cs.len() ==> object_at_ok(#[trigger] cs[k], t, elem_offset(cs, k))
    &&& forall|k: int| 0 <= k < cs.len() - 1 && (#[trigger] cs[k]) is Token ==> cs[k + 1] is Node
}

/// `object_at`, stated as the scan needs it.
fn object_here<'a>(input: Input<'a>) -> (r: Option<(Input<'a>, GreenElement)>)
    ensures
        r matches Some((rest, e)) ==> {
            &&& input.s@ == elem_text(e) + rest.s@
            &&& object_ok(e)
            &&& rest.c == input.c
            &&& elem_text(e).len() > 0
        },
        r is Some <==> object_len(input.s@) is Some,
        r matches Some((rest, e)) ==> elem_text(e).len() == object_len(input.s@)->0 && e is Node,
{
    object_at(input)
}

/// Scans `input` left to right: an object where one starts, text between.
#[verifier::rlimit(100)]
fn object_scan(input: Input) -> (r: Vec<GreenElement>)
    ensures
        seq_text(r@) == input.s@,
        forall|i: int| 0 <= i < r@.len() ==> object_ok(#[trigger] r@[i]),
        all_well_formed(r@),
        forall|k: int| 0 <= k < r@.len() ==> object_at_ok(#[trigger] r@[k], input.s@, elem_offset(r@, k)),
        forall|k: int| 0 <= k < r@.len() - 1 && (#[trigger] r@[k]) is Token ==> r@[k + 1] is Node,
        input.s@.len() == 0 ==> r@.len() == 0,
{
    let s = input.s;
    let len = s.len();
    let mut out: Vec<GreenElement> = Vec::new();
    let mut start: usize = 0;
    let mut i: usize = 0;
    assert(s@.subrange(0, 0) =~= Seq::<char>::empty());
    while i < len
        invariant
            len == s@.len(),
            s@ == input.s@,
            start <= i <= len,
            seq_text(out@) == s@.subrange(0, start as int),
            forall|k: int| 0 <= k < out@.len() ==> object_ok(#[trigger] out@[k]),
            forall|k: int| 0 <= k < out@.len() ==> object_at_ok(#[trigger] out@[k], s@, elem_offset(out@, k)),
            forall|q: int| start <= q < i ==> #[trigger] object_len(s@.subrange(q, len as int)) is None,
            len == 0 ==> out@.len() == 0,
            forall|k: int| 0 <= k < out@.len() - 1 && (#[trigger] out@[k]) is Token ==> out@[k + 1] is Node,
            out@.len() > 0 ==> out@.last() is Node,
        decreases len - i,
    {
        let mut next = i + 1;
        if s[i] == '<' || s[i] == '[' || s[i] == '{' || s[i] == '@' {
            match object_here(input.slice(i, len)) {
                Some((rest, ts)) => {
                    if start < i {
                        let t = token(SyntaxKind::TEXT, slice_range(s, start, i));
                        proof {
                            lemma_push_object_ok(out@, t, s@);
                            lemma_seq_text_push(out@, t);
                            assert(s@.subrange(0, start as int) + s@.subrange(start as int, i as int)
                                =~= s@.subrange(0, i as int));
                        }
                        out.push(t);
                    }
                    proof {
                        lemma_seq_text_push(out@, ts);
                        let tail = s@.subrange(i as int, len as int);
                        assert(tail == elem_text(ts) + rest.s@);
                        let k = elem_text(ts).len() as int;
                        assert(k <= tail.len());
                        assert forall|j: int| 0 <= j < k implies #[trigger] elem_text(ts)[j] == s@[i + j] by {
                            assert(elem_text(ts)[j] == tail[j]);
                        }
                        assert(elem_text(ts) =~= s@.subrange(i as int, i + k));
                        assert(s@.subrange(0, i as int) + elem_text(ts) =~= s@.subrange(
                            0,
                            len - rest.s@.len(),
                        ));
                        assert(seq_text(out@).len() == i);
                        lemma_push_object_ok(out@, ts, s@);
                    }
                    let ghost before_ts = out@;
                    out.push(ts);
                    proof {
                        assert forall|k: int| 0 <= k < out@.len() - 1 && (#[trigger] out@[k]) is Token implies out@[k + 1] is Node by {
                            assert(out@[k] == before_ts[k]);
                            if k + 1 < before_ts.len() {
                                assert(out@[k + 1] == before_ts[k + 1]);
                            }
                        }
                    }
                    next = len - rest.len();
                    start = next;
                },
                None => {},
            }
        } else {
            proof {
                assert(s@.subrange(i as int, len as int)[0] == s@[i as int]);
                lemma_object_len_plain(s@.subrange(i as int, len as int));
            }
        }
        i = next;
    }
    if start < len {
        let t = token(SyntaxKind::TEXT, slice_range(s, start, len));
        proof {
            lemma_push_object_ok(out@, t, s@);
            lemma_seq_text_push(out@, t);
        }
        let ghost before_t = out@;
        out.push(t);
        proof {
            assert forall|k: int| 0 <= k < out@.len() - 1 && (#[trigger] out@[k]) is Token implies out@[k + 1] is Node by {
                assert(out@[k] == before_t[k]);
                if k + 1 < before_t.len() {
                    assert(out@[k + 1] == before_t[k + 1]);
                } else {
                    assert(before_t.last() is Node);
                }
            }
        }
    }
    assert(seq_text(out@) =~= input.s@);
    proof {
        assert forall|i: int| 0 <= i < out@.len() implies well_formed(#[trigger] out@[i]) by {
            assert(object_ok(out@[i]));
            match out@[i] {
                GreenElement::Node(n) => {
                    lemma_flat_well_formed(n);
                },
                GreenElement::Token(_) => {},
            }
        }
    }
    out
}

/// Parses a run of objects covering all of `input`: objects where one
/// starts, text in between.
pub fn object_nodes(input: Input) -> (r: Vec<GreenElement>)
    ensures
        seq_text(r@) == input.s@,
        forall|i: int| 0 <= i < r@.len() ==> object_ok(#[trigger] r@[i]),
        all_well_formed(r@),
        timestamp_len(input.s@) == Some(input.s@.len() as int) ==> r@.len() == 1 && is_node(
            r@[0],
            timestamp_kind_of(input.s@),
        ) && elem_text(r@[0]) == input.s@ && layout_matches(elem_children(r@[0]), timestamp_layout(input.s@)),
        forall|k: int| 0 <= k < r@.len() ==> object_at_ok(#[trigger] r@[k], input.s@, elem_offset(r@, k)),
        forall|k: int| 0 <= k < r@.len() - 1 && (#[trigger] r@[k]) is Token ==> r@[k + 1] is Node,
        objects_ok(r@, input.s@),
        input.s@.len() == 0 ==> r@.len() == 0,
{
    let s = input.s;
    let len = s.len();
    // an input that is one object as a whole
    if len > 0 && (s[0] == '<' || s[0] == '[') {
        match object_at(input) {
            Some((rest, e)) => {
                if rest.len() == 0 {
                    let ghost eg = e;
                    let v = vec![e];
                    proof {
                        assert(v@ =~= seq![e]);
                        assert(v@.drop_last() =~= Seq::<GreenElement>::empty());
                        assert(seq_text(Seq::<GreenElement>::empty()) == Seq::<char>::empty());
                        assert(seq_text(v@) =~= input.s@);
                        assert(v@.subrange(0, 0) =~= Seq::<GreenElement>::empty());
                        assert(elem_offset(v@, 0) == 0);
                        assert(s@.subrange(0, len as int) =~= s@);
                        match eg {
                            GreenElement::Node(n) => lemma_flat_well_formed(n),
                            GreenElement::Token(_) => {},
                        }
                    }
                    return v;
                }
            },
            None => {},
        }
    }
    proof {
        if timestamp_len(s@) == Some(len as int) {
            lemma_timestamp_start(s@);
        }
    }
    object_scan(input)
}

} // verus!
