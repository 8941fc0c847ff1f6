use vstd::prelude::*;
use crate::combinator::NodeBuilder;
use crate::input::Input;
use crate::kind::SyntaxKind;
use crate::shape::{lemma_flat_well_formed, well_formed};
use crate::tree::{GreenElement, elem_text, elem_children, is_node, is_token, lemma_seq_text_concat, seq_text};

verus! {

/// Every element of `cs` is a token.
pub open spec fn all_tokens(cs: Seq<GreenElement>) -> bool {
    forall|i: int| 0 <= i < cs.len() ==> #[trigger] cs[i] is Token
}

pub open spec fn is_timestamp_kind(k: SyntaxKind) -> bool {
    k == SyntaxKind::TIMESTAMP_ACTIVE || k == SyntaxKind::TIMESTAMP_INACTIVE || k
        == SyntaxKind::TIMESTAMP_DIARY
}

pub open spec fn is_digit(c: char) -> bool {
    '0' <= c && c <= '9'
}

pub open spec fn is_blank(c: char) -> bool {
    c == ' ' || c == '\t'
}

/// A character that may appear in a day name.
pub open spec fn is_dayname(c: char) -> bool {
    !(c == ' ' || c == '\t' || c == '\n' || c == '\r' || is_digit(c) || c == '>' || c == ']' || c
        == '+' || c == '-' || c == '.' || c == '<' || c == '[')
}

pub open spec fn is_unit(c: char) -> bool {
    c == 'h' || c == 'd' || c == 'w' || c == 'm' || c == 'y'
}

/// The number of consecutive digits in `s` from `from`.
pub open spec fn digit_run(s: Seq<char>, from: int) -> nat
    decreases s.len() - from,
{
    if 0 <= from < s.len() && is_digit(s[from]) {
        1 + digit_run(s, from + 1)
    } else {
        0
    }
}

/// The number of consecutive spaces and tabs in `s` from `from`.
pub open spec fn blank_run(s: Seq<char>, from: int) -> nat
    decreases s.len() - from,
{
    if 0 <= from < s.len() && is_blank(s[from]) {
        1 + blank_run(s, from + 1)
    } else {
        0
    }
}

/// The length of the day name in `s` from `from`.
pub open spec fn dayname_run(s: Seq<char>, from: int) -> nat
    decreases s.len() - from,
{
    if 0 <= from < s.len() && is_dayname(s[from]) {
        1 + dayname_run(s, from + 1)
    } else {
        0
    }
}

/// The length of a time `H:MM` or `HH:MM` in `s` at `from`, or zero.
pub open spec fn time_len(s: Seq<char>, from: int) -> nat {
    let h = digit_run(s, from);
    if 1 <= h <= 2 && s.len() - from - h >= 3 && s[from + h] == ':' && digit_run(s, from + h + 1) == 2 {
        h + 3
    } else {
        0
    }
}

/// A date `YYYY-MM-DD` starts `s`.
pub open spec fn date_ok(s: Seq<char>) -> bool {
    s.len() >= 10 && digit_run(s, 0) == 4 && s[4] == '-' && digit_run(s, 5) == 2 && s[7] == '-'
        && digit_run(s, 8) >= 2
}

/// Where a day name after position `p` ends, or `p` where there is none.
pub open spec fn after_dayname(s: Seq<char>, p: int) -> int {
    let w = blank_run(s, p);
    if w > 0 && dayname_run(s, p + w) > 0 {
        p + w + dayname_run(s, p + w)
    } else {
        p
    }
}

/// Where a time or a time range after position `p` ends, or `p` where there is none.
pub open spec fn after_time(s: Seq<char>, p: int) -> int {
    let w = blank_run(s, p);
    let t = if w > 0 {
        time_len(s, p + w)
    } else {
        0
    };
    if t == 0 {
        p
    } else {
        let q = p + w + t;
        if q < s.len() && s[q] == '-' && time_len(s, q + 1) > 0 {
            q + 1 + time_len(s, q + 1)
        } else {
            q
        }
    }
}

/// The length of a repeater mark (`++`, `+`, `.+`) or a delay mark (`--`,
/// `-`) at `p`, or zero.
pub open spec fn mark_len(s: Seq<char>, p: int) -> nat {
    if 0 <= p < s.len() && s[p] == '+' && p + 1 < s.len() && s[p + 1] == '+' {
        2
    } else if 0 <= p < s.len() && s[p] == '+' {
        1
    } else if 0 <= p < s.len() && s[p] == '.' && p + 1 < s.len() && s[p + 1] == '+' {
        2
    } else if 0 <= p < s.len() && s[p] == '-' && p + 1 < s.len() && s[p + 1] == '-' {
        2
    } else if 0 <= p < s.len() && s[p] == '-' {
        1
    } else {
        0
    }
}

/// Where the repeaters and warnings from `p` on end: each is blanks, a mark,
/// digits and a unit.
pub open spec fn after_marks(s: Seq<char>, p: int) -> int
    decreases s.len() - p,
{
    let w = blank_run(s, p);
    if p < 0 || w == 0 || p + w >= s.len() {
        p
    } else {
        let m = mark_len(s, p + w);
        let v = digit_run(s, p + w + m);
        if m == 0 || v == 0 || p + w + m + v >= s.len() || !is_unit(s[p + w + m + v]) {
            p
        } else {
            after_marks(s, p + w + m + v + 1)
        }
    }
}

/// Where the inside of a timestamp that starts `s` ends: date, day name,
/// time or time range, repeaters and warnings, trailing blanks.
#[verifier::opaque]
pub open spec fn body_end(s: Seq<char>) -> int {
    let p = after_marks(s, after_time(s, after_dayname(s, 10)));
    p + blank_run(s, p)
}

proof fn lemma_digit_run_bound(s: Seq<char>, from: int)
    requires
        0 <= from <= s.len(),
    ensures
        from + digit_run(s, from) <= s.len(),
    decreases s.len() - from,
{
    if from < s.len() && is_digit(s[from]) {
        lemma_digit_run_bound(s, from + 1);
    }
}

pub proof fn lemma_blank_run_bound(s: Seq<char>, from: int)
    requires
        0 <= from <= s.len(),
    ensures
        from + blank_run(s, from) <= s.len(),
    decreases s.len() - from,
{
    if from < s.len() && is_blank(s[from]) {
        lemma_blank_run_bound(s, from + 1);
    }
}

proof fn lemma_dayname_run_bound(s: Seq<char>, from: int)
    requires
        0 <= from <= s.len(),
    ensures
        from + dayname_run(s, from) <= s.len(),
    decreases s.len() - from,
{
    if from < s.len() && is_dayname(s[from]) {
        lemma_dayname_run_bound(s, from + 1);
    }
}

/// The number of consecutive ASCII digits in `s` from `from`.
fn digits_at(s: &[char], from: usize) -> (r: usize)
    requires
        from <= s@.len(),
    ensures
        r == digit_run(s@, from as int),
        from + r <= s@.len(),
{
    let mut i = from;
    while i < s.len() && '0' <= s[i] && s[i] <= '9'
        invariant
            from <= i <= s@.len(),
            digit_run(s@, from as int) == (i - from) + digit_run(s@, i as int),
        decreases s@.len() - i,
    {
        i = i + 1;
    }
    i - from
}

/// The number of consecutive spaces and tabs in `s` from `from`.
fn spaces_at(s: &[char], from: usize) -> (r: usize)
    requires
        from <= s@.len(),
    ensures
        r == blank_run(s@, from as int),
        from + r <= s@.len(),
{
    let mut i = from;
    while i < s.len() && (s[i] == ' ' || s[i] == '\t')
        invariant
            from <= i <= s@.len(),
            blank_run(s@, from as int) == (i - from) + blank_run(s@, i as int),
        decreases s@.len() - i,
    {
        i = i + 1;
    }
    i - from
}

fn is_dayname_char(c: char) -> (r: bool)
    ensures
        r == is_dayname(c),
{
    !(c == ' ' || c == '\t' || c == '\n' || c == '\r' || ('0' <= c && c <= '9') || c == '>' || c
        == ']' || c == '+' || c == '-' || c == '.' || c == '<' || c == '[')
}

/// The length of the day name in `s` from `from`.
fn dayname_at(s: &[char], from: usize) -> (r: usize)
    requires
        from <= s@.len(),
    ensures
        r == dayname_run(s@, from as int),
        from + r <= s@.len(),
{
    let mut i = from;
    while i < s.len() && is_dayname_char(s[i])
        invariant
            from <= i <= s@.len(),
            dayname_run(s@, from as int) == (i - from) + dayname_run(s@, i as int),
        decreases s@.len() - i,
    {
        i = i + 1;
    }
    i - from
}

/// The length of a time `H:MM` or `HH:MM` in `s` from `from`, or zero.
fn time_at(s: &[char], from: usize) -> (r: usize)
    requires
        from <= s@.len(),
    ensures
        r == time_len(s@, from as int),
        from + r <= s@.len(),
{
    let h = digits_at(s, from);
    if h < 1 || h > 2 || s.len() - from - h < 3 || s[from + h] != ':' {
        return 0;
    }
    let m = digits_at(s, from + h + 1);
    if m != 2 {
        return 0;
    }
    h + 3
}

fn mark_at(s: &[char], p: usize) -> (r: (usize, SyntaxKind))
    requires
        p <= s@.len(),
    ensures
        r.0 == mark_len(s@, p as int),
        p + r.0 <= s@.len(),
        r.0 > 0 ==> r.1 == mark_kind(s@, p as int),
{
    let n = s.len();
    if p < n && s[p] == '+' && p + 1 < n && s[p + 1] == '+' {
        (2, SyntaxKind::TIMESTAMP_REPEATER_MARK)
    } else if p < n && s[p] == '+' {
        (1, SyntaxKind::TIMESTAMP_REPEATER_MARK)
    } else if p < n && s[p] == '.' && p + 1 < n && s[p + 1] == '+' {
        (2, SyntaxKind::TIMESTAMP_REPEATER_MARK)
    } else if p < n && s[p] == '-' && p + 1 < n && s[p + 1] == '-' {
        (2, SyntaxKind::TIMESTAMP_DELAY_MARK)
    } else if p < n && s[p] == '-' {
        (1, SyntaxKind::TIMESTAMP_DELAY_MARK)
    } else {
        (0, SyntaxKind::TEXT)
    }
}

/// Moves the first `n` characters of `cur` into a token of `kind`.
pub(crate) fn take_token<'a>(b: &mut NodeBuilder, cur: Input<'a>, n: usize, kind: SyntaxKind) -> (r: Input<'a>)
    requires
        n <= cur.s@.len(),
        all_tokens(old(b).children@),
    ensures
        seq_text(final(b).children@) + r.s@ == seq_text(old(b).children@) + cur.s@,
        all_tokens(final(b).children@),
        r.c == cur.c,
        r.s@ == cur.s@.subrange(n as int, cur.s@.len() as int),
        final(b).children@ == old(b).children@.push(final(b).children@.last()),
        is_token(final(b).children@.last(), kind, cur.s@.subrange(0, n as int)),
{
    let (piece, rest) = cur.take_split(n);
    let ghost c0 = b.children@;
    b.token(kind, piece);
    proof {
        assert(b.children@ =~= c0.push(b.children@.last()));
        assert forall|i: int| 0 <= i < b.children@.len() implies #[trigger] b.children@[i] is Token by {
            if i < b.children@.len() - 1 {
                assert(b.children@[i] == b.children@.drop_last()[i]);
            }
        }
        assert(seq_text(old(b).children@) + cur.s@ =~= seq_text(old(b).children@) + piece.s@
            + rest.s@);
    }
    rest
}

/// The tokens `cs` are, one for one, the kinds and texts of `lay`.
pub open spec fn layout_matches(cs: Seq<GreenElement>, lay: Seq<(SyntaxKind, Seq<char>)>) -> bool {
    cs.len() == lay.len() && forall|i: int|
        0 <= i < cs.len() ==> is_token(#[trigger] cs[i], lay[i].0, lay[i].1)
}

proof fn lemma_layout_push(cs: Seq<GreenElement>, lay: Seq<(SyntaxKind, Seq<char>)>, e: GreenElement, k: SyntaxKind, t: Seq<char>)
    requires
        layout_matches(cs, lay),
        is_token(e, k, t),
    ensures
        layout_matches(cs.push(e), lay.push((k, t))),
{
    assert forall|i: int| 0 <= i < cs.len() + 1 implies is_token(#[trigger] cs.push(e)[i], lay.push((k, t))[i].0, lay.push((k, t))[i].1) by {
        if i < cs.len() {
            assert(cs.push(e)[i] == cs[i]);
        }
    }
}

proof fn lemma_layout_concat(c1: Seq<GreenElement>, l1: Seq<(SyntaxKind, Seq<char>)>, c2: Seq<GreenElement>, l2: Seq<(SyntaxKind, Seq<char>)>)
    requires
        layout_matches(c1, l1),
        layout_matches(c2, l2),
    ensures
        layout_matches(c1 + c2, l1 + l2),
{
    assert forall|i: int| 0 <= i < c1.len() + c2.len() implies is_token(#[trigger] (c1 + c2)[i], (l1 + l2)[i].0, (l1 + l2)[i].1) by {
        if i >= c1.len() {
            assert((c1 + c2)[i] == c2[i - c1.len()]);
        }
    }
}

/// A token of kind `k` holding `s[a..e]`.
pub open spec fn piece(k: SyntaxKind, s: Seq<char>, a: int, e: int) -> (SyntaxKind, Seq<char>) {
    (k, s.subrange(a, e))
}

/// The date tokens: year, month and day with two `MINUS` between.
pub open spec fn date_layout(s: Seq<char>) -> Seq<(SyntaxKind, Seq<char>)> {
    seq![
        piece(SyntaxKind::TIMESTAMP_YEAR, s, 0, 4),
        piece(SyntaxKind::MINUS, s, 4, 5),
        piece(SyntaxKind::TIMESTAMP_MONTH, s, 5, 7),
        piece(SyntaxKind::MINUS, s, 7, 8),
        piece(SyntaxKind::TIMESTAMP_DAY, s, 8, 10),
    ]
}

/// The tokens of a day name after `p`: blanks and the name, where there is one.
pub open spec fn dayname_layout(s: Seq<char>, p: int) -> Seq<(SyntaxKind, Seq<char>)> {
    let w = blank_run(s, p);
    if w > 0 && dayname_run(s, p + w) > 0 {
        seq![
            piece(SyntaxKind::WHITESPACE, s, p, p + w),
            piece(SyntaxKind::TIMESTAMP_DAYNAME, s, p + w, p + w + dayname_run(s, p + w)),
        ]
    } else {
        seq![]
    }
}

/// The tokens of a time `HH:MM` that ends at `q` and is `t` long.
pub open spec fn clock_layout(s: Seq<char>, q: int, t: int) -> Seq<(SyntaxKind, Seq<char>)> {
    seq![
        piece(SyntaxKind::TIMESTAMP_HOUR, s, q - t, q - 3),
        piece(SyntaxKind::COLON, s, q - 3, q - 2),
        piece(SyntaxKind::TIMESTAMP_MINUTE, s, q - 2, q),
    ]
}

/// The tokens of a time or time range after `p`, where there is one.
pub open spec fn time_layout(s: Seq<char>, p: int) -> Seq<(SyntaxKind, Seq<char>)> {
    let w = blank_run(s, p);
    let t = if w > 0 {
        time_len(s, p + w)
    } else {
        0
    };
    if t == 0 {
        seq![]
    } else {
        let q = p + w + t;
        let first = seq![piece(SyntaxKind::WHITESPACE, s, p, p + w)] + clock_layout(s, q, t as int);
        if q < s.len() && s[q] == '-' && time_len(s, q + 1) > 0 {
            let t2 = time_len(s, q + 1);
            first + seq![piece(SyntaxKind::MINUS, s, q, q + 1)] + clock_layout(s, q + 1 + t2, t2 as int)
        } else {
            first
        }
    }
}

/// The kind of the mark at `p`: `+`, `++` and `.+` repeat, `-` and `--` delay.
pub open spec fn mark_kind(s: Seq<char>, p: int) -> SyntaxKind {
    if s[p] == '+' || s[p] == '.' {
        SyntaxKind::TIMESTAMP_REPEATER_MARK
    } else {
        SyntaxKind::TIMESTAMP_DELAY_MARK
    }
}

/// Whether a repeater or warning follows at `p`.
pub open spec fn mark_step_ok(s: Seq<char>, p: int) -> bool {
    let w = blank_run(s, p);
    let m = mark_len(s, p + w);
    let v = digit_run(s, p + w + m);
    !(p < 0 || w == 0 || p + w >= s.len()) && !(m == 0 || v == 0 || p + w + m + v >= s.len()
        || !is_unit(s[p + w + m + v]))
}

/// The tokens of the repeater or warning at `p`: blanks, mark, value, unit.
pub open spec fn mark_step_layout(s: Seq<char>, p: int) -> Seq<(SyntaxKind, Seq<char>)> {
    let w = blank_run(s, p);
    let m = mark_len(s, p + w);
    let v = digit_run(s, p + w + m);
    seq![
        piece(SyntaxKind::WHITESPACE, s, p, p + w),
        piece(mark_kind(s, p + w), s, p + w, p + w + m),
        piece(SyntaxKind::TIMESTAMP_VALUE, s, p + w + m, p + w + m + v),
        piece(SyntaxKind::TIMESTAMP_UNIT, s, p + w + m + v, p + w + m + v + 1),
    ]
}

/// The tokens of the repeaters and warnings from `p` on.
pub open spec fn marks_layout(s: Seq<char>, p: int) -> Seq<(SyntaxKind, Seq<char>)>
    decreases s.len() - p,
{
    if mark_step_ok(s, p) {
        let w = blank_run(s, p);
        let m = mark_len(s, p + w);
        let v = digit_run(s, p + w + m);
        mark_step_layout(s, p) + marks_layout(s, p + w + m + v + 1)
    } else {
        seq![]
    }
}

/// The trailing blanks at `p`, where there are some.
pub open spec fn tail_layout(s: Seq<char>, p: int) -> Seq<(SyntaxKind, Seq<char>)> {
    if blank_run(s, p) > 0 {
        seq![piece(SyntaxKind::WHITESPACE, s, p, p + blank_run(s, p))]
    } else {
        seq![]
    }
}

/// The tokens of the inside of a timestamp that starts `s`, in order.
#[verifier::opaque]
pub open spec fn body_layout(s: Seq<char>) -> Seq<(SyntaxKind, Seq<char>)> {
    let p1 = after_dayname(s, 10);
    let p2 = after_time(s, p1);
    let p3 = after_marks(s, p2);
    date_layout(s) + dayname_layout(s, 10) + time_layout(s, p1) + marks_layout(s, p2) + tail_layout(s, p3)
}

/// Appends a token of `kind` holding `input[a..e]`, where the builder holds
/// `input[..a]`.
fn push_piece(b: &mut NodeBuilder, input: Input, a: usize, e: usize, kind: SyntaxKind, Ghost(lay): Ghost<Seq<(SyntaxKind, Seq<char>)>>)
    requires
        a <= e <= input.s@.len(),
        seq_text(old(b).children@) == input.s@.subrange(0, a as int),
        all_tokens(old(b).children@),
        layout_matches(old(b).children@, lay),
    ensures
        seq_text(final(b).children@) == input.s@.subrange(0, e as int),
        all_tokens(final(b).children@),
        layout_matches(final(b).children@, lay.push(piece(kind, input.s@, a as int, e as int))),
{
    let piece = input.slice(a, e);
    let ghost c0 = b.children@;
    b.token(kind, piece);
    proof {
        assert(b.children@ =~= c0.push(b.children@.last()));
        lemma_layout_push(c0, lay, b.children@.last(), kind, piece.s@);
        assert forall|i: int| 0 <= i < b.children@.len() implies #[trigger] b.children@[i] is Token by {
            if i < b.children@.len() - 1 {
                assert(b.children@[i] == b.children@.drop_last()[i]);
            }
        }
        assert(input.s@.subrange(0, a as int) + piece.s@ =~= input.s@.subrange(0, e as int));
    }
}

/// Appends a day name after position `p`, where there is one.
fn push_dayname(b: &mut NodeBuilder, input: Input, p: usize, Ghost(lay): Ghost<Seq<(SyntaxKind, Seq<char>)>>) -> (r: usize)
    requires
        p <= input.s@.len(),
        seq_text(old(b).children@) == input.s@.subrange(0, p as int),
        all_tokens(old(b).children@),
        layout_matches(old(b).children@, lay),
    ensures
        r == after_dayname(input.s@, p as int),
        p <= r <= input.s@.len(),
        seq_text(final(b).children@) == input.s@.subrange(0, r as int),
        all_tokens(final(b).children@),
        layout_matches(final(b).children@, lay + dayname_layout(input.s@, p as int)),
{
    let s = input.s;
    let n = s.len();
    let w = spaces_at(s, p);
    assert(p + w <= n);
    if w > 0 {
        let d = dayname_at(s, p + w);
        if d > 0 {
            push_piece(b, input, p, p + w, SyntaxKind::WHITESPACE, Ghost(lay));
            let ghost l1 = lay.push(piece(SyntaxKind::WHITESPACE, s@, p as int, (p + w) as int));
            push_piece(b, input, p + w, p + w + d, SyntaxKind::TIMESTAMP_DAYNAME, Ghost(l1));
            assert(l1.push(piece(SyntaxKind::TIMESTAMP_DAYNAME, s@, (p + w) as int, (p + w + d) as int))
                =~= lay + dayname_layout(input.s@, p as int));
            return p + w + d;
        }
    }
    assert(lay + dayname_layout(input.s@, p as int) =~= lay);
    p
}

/// Appends a time `H:MM` of length `t` ending at `q`.
fn push_clock(b: &mut NodeBuilder, input: Input, q: usize, t: usize, Ghost(lay): Ghost<Seq<(SyntaxKind, Seq<char>)>>)
    requires
        3 <= t <= q <= input.s@.len(),
        t == 4 || t == 5,
        seq_text(old(b).children@) == input.s@.subrange(0, q - t),
        all_tokens(old(b).children@),
        layout_matches(old(b).children@, lay),
    ensures
        seq_text(final(b).children@) == input.s@.subrange(0, q as int),
        all_tokens(final(b).children@),
        layout_matches(final(b).children@, lay + clock_layout(input.s@, q as int, t as int)),
{
    push_piece(b, input, q - t, q - 3, SyntaxKind::TIMESTAMP_HOUR, Ghost(lay));
    let ghost l1 = lay.push(piece(SyntaxKind::TIMESTAMP_HOUR, input.s@, q - t, q - 3));
    push_piece(b, input, q - 3, q - 2, SyntaxKind::COLON, Ghost(l1));
    let ghost l2 = l1.push(piece(SyntaxKind::COLON, input.s@, q - 3, q - 2));
    push_piece(b, input, q - 2, q, SyntaxKind::TIMESTAMP_MINUTE, Ghost(l2));
    assert(l2.push(piece(SyntaxKind::TIMESTAMP_MINUTE, input.s@, q - 2, q as int)) =~= lay + clock_layout(
        input.s@,
        q as int,
        t as int,
    ));
}

/// Appends a time or a time range after position `p`, where there is one.
fn push_time(b: &mut NodeBuilder, input: Input, p: usize, Ghost(lay): Ghost<Seq<(SyntaxKind, Seq<char>)>>) -> (r: usize)
    requires
        p <= input.s@.len(),
        seq_text(old(b).children@) == input.s@.subrange(0, p as int),
        all_tokens(old(b).children@),
        layout_matches(old(b).children@, lay),
    ensures
        r == after_time(input.s@, p as int),
        p <= r <= input.s@.len(),
        seq_text(final(b).children@) == input.s@.subrange(0, r as int),
        all_tokens(final(b).children@),
        layout_matches(final(b).children@, lay + time_layout(input.s@, p as int)),
{
    let s = input.s;
    let n = s.len();
    let w = spaces_at(s, p);
    assert(p + w <= n);
    if w == 0 {
        assert(lay + time_layout(input.s@, p as int) =~= lay);
        return p;
    }
    let t = time_at(s, p + w);
    assert(p + w + t <= n);
    if t == 0 {
        assert(lay + time_layout(input.s@, p as int) =~= lay);
        return p;
    }
    push_piece(b, input, p, p + w, SyntaxKind::WHITESPACE, Ghost(lay));
    let ghost l1 = lay.push(piece(SyntaxKind::WHITESPACE, s@, p as int, (p + w) as int));
    let q = p + w + t;
    push_clock(b, input, q, t, Ghost(l1));
    let ghost l2 = l1 + clock_layout(s@, q as int, t as int);
    if q < s.len() && s[q] == '-' {
        let t2 = time_at(s, q + 1);
        if t2 > 0 {
            push_piece(b, input, q, q + 1, SyntaxKind::MINUS, Ghost(l2));
            let ghost l3 = l2.push(piece(SyntaxKind::MINUS, s@, q as int, q + 1));
            push_clock(b, input, q + 1 + t2, t2, Ghost(l3));
            assert(l3 + clock_layout(s@, q + 1 + t2, t2 as int) =~= lay + time_layout(input.s@, p as int));
            return q + 1 + t2;
        }
    }
    assert(l2 =~= lay + time_layout(input.s@, p as int));
    q
}

/// Appends one repeater or warning after position `p`, where there is one.
fn push_mark(b: &mut NodeBuilder, input: Input, p: usize, Ghost(lay): Ghost<Seq<(SyntaxKind, Seq<char>)>>) -> (r: usize)
    requires
        p <= input.s@.len(),
        seq_text(old(b).children@) == input.s@.subrange(0, p as int),
        all_tokens(old(b).children@),
        layout_matches(old(b).children@, lay),
    ensures
        p <= r <= input.s@.len(),
        r == p ==> after_marks(input.s@, p as int) == p && marks_layout(input.s@, p as int) == Seq::<(SyntaxKind, Seq<char>)>::empty()
            && final(b).children@ == old(b).children@,
        r > p ==> after_marks(input.s@, p as int) == after_marks(input.s@, r as int)
            && marks_layout(input.s@, p as int) == mark_step_layout(input.s@, p as int) + marks_layout(input.s@, r as int)
            && layout_matches(final(b).children@, lay + mark_step_layout(input.s@, p as int)),
        seq_text(final(b).children@) == input.s@.subrange(0, r as int),
        all_tokens(final(b).children@),
{
    let s = input.s;
    let w = spaces_at(s, p);
    if w == 0 || w >= s.len() - p {
        return p;
    }
    let (m, mark_kind) = mark_at(s, p + w);
    if m == 0 {
        return p;
    }
    let v = digits_at(s, p + w + m);
    if v == 0 || p + w + m + v >= s.len() {
        return p;
    }
    let u = s[p + w + m + v];
    if !(u == 'h' || u == 'd' || u == 'w' || u == 'm' || u == 'y') {
        return p;
    }
    push_piece(b, input, p, p + w, SyntaxKind::WHITESPACE, Ghost(lay));
    let ghost l1 = lay.push(piece(SyntaxKind::WHITESPACE, s@, p as int, (p + w) as int));
    push_piece(b, input, p + w, p + w + m, mark_kind, Ghost(l1));
    let ghost l2 = l1.push(piece(mark_kind, s@, (p + w) as int, (p + w + m) as int));
    push_piece(b, input, p + w + m, p + w + m + v, SyntaxKind::TIMESTAMP_VALUE, Ghost(l2));
    let ghost l3 = l2.push(piece(SyntaxKind::TIMESTAMP_VALUE, s@, (p + w + m) as int, (p + w + m + v) as int));
    push_piece(b, input, p + w + m + v, p + w + m + v + 1, SyntaxKind::TIMESTAMP_UNIT, Ghost(l3));
    assert(l3.push(piece(SyntaxKind::TIMESTAMP_UNIT, s@, (p + w + m + v) as int, (p + w + m + v + 1) as int))
        =~= lay + mark_step_layout(input.s@, p as int));
    p + w + m + v + 1
}

/// Parses the inside of a timestamp: date, day name, time or time range,
/// repeaters and warnings, and trailing blanks.
fn timestamp_body<'a>(input: Input<'a>) -> (r: Option<(Input<'a>, Vec<GreenElement>)>)
    ensures
        r is Some <==> date_ok(input.s@),
        r matches Some((rest, v)) ==> {
            &&& 10 <= body_end(input.s@) <= input.s@.len()
            &&& seq_text(v@) == input.s@.subrange(0, body_end(input.s@))
            &&& rest.s@ == input.s@.subrange(body_end(input.s@), input.s@.len() as int)
            &&& all_tokens(v@)
            &&& layout_matches(v@, body_layout(input.s@))
            &&& rest.c == input.c
        },
{
    let s = input.s;
    if !(s.len() >= 10 && digits_at(s, 0) == 4 && s[4] == '-' && digits_at(s, 5) == 2 && s[7] == '-'
        && digits_at(s, 8) >= 2) {
        return None;
    }
    let mut b = NodeBuilder::new();
    assert(seq_text(b.children@) =~= s@.subrange(0, 0));
    let ghost l0 = Seq::<(SyntaxKind, Seq<char>)>::empty();
    push_piece(&mut b, input, 0, 4, SyntaxKind::TIMESTAMP_YEAR, Ghost(l0));
    let ghost l1 = l0.push(piece(SyntaxKind::TIMESTAMP_YEAR, s@, 0, 4));
    push_piece(&mut b, input, 4, 5, SyntaxKind::MINUS, Ghost(l1));
    let ghost l2 = l1.push(piece(SyntaxKind::MINUS, s@, 4, 5));
    push_piece(&mut b, input, 5, 7, SyntaxKind::TIMESTAMP_MONTH, Ghost(l2));
    let ghost l3 = l2.push(piece(SyntaxKind::TIMESTAMP_MONTH, s@, 5, 7));
    push_piece(&mut b, input, 7, 8, SyntaxKind::MINUS, Ghost(l3));
    let ghost l4 = l3.push(piece(SyntaxKind::MINUS, s@, 7, 8));
    push_piece(&mut b, input, 8, 10, SyntaxKind::TIMESTAMP_DAY, Ghost(l4));
    let ghost ld = l4.push(piece(SyntaxKind::TIMESTAMP_DAY, s@, 8, 10));
    assert(ld =~= date_layout(s@));
    let p = push_dayname(&mut b, input, 10, Ghost(ld));
    let ghost le = ld + dayname_layout(s@, 10);
    let ghost p1 = p as int;
    let p = push_time(&mut b, input, p, Ghost(le));
    let ghost lt = le + time_layout(s@, p1);
    let ghost start_marks = p as int;
    let ghost mut lay = lt;
    let mut p = p;
    loop
        invariant
            10 <= p <= s@.len(),
            s@ == input.s@,
            seq_text(b.children@) == s@.subrange(0, p as int),
            all_tokens(b.children@),
            after_marks(s@, p as int) == after_marks(s@, start_marks),
            layout_matches(b.children@, lay),
            lay + marks_layout(s@, p as int) == lt + marks_layout(s@, start_marks),
        ensures
            10 <= p <= s@.len(),
            seq_text(b.children@) == s@.subrange(0, p as int),
            all_tokens(b.children@),
            p == after_marks(s@, start_marks),
            layout_matches(b.children@, lt + marks_layout(s@, start_marks)),
        decreases s@.len() - p,
    {
        let q = push_mark(&mut b, input, p, Ghost(lay));
        if q == p {
            assert(lay + marks_layout(s@, p as int) =~= lay);
            break;
        }
        proof {
            let st = mark_step_layout(s@, p as int);
            assert(lay + marks_layout(s@, p as int) =~= (lay + st) + marks_layout(s@, q as int));
            lay = lay + st;
        }
        p = q;
    }
    let w = spaces_at(s, p);
    let ghost lm = lt + marks_layout(s@, start_marks);
    proof {
        reveal(body_layout);
    }
    if w > 0 {
        push_piece(&mut b, input, p, p + w, SyntaxKind::WHITESPACE, Ghost(lm));
        assert(lm.push(piece(SyntaxKind::WHITESPACE, s@, p as int, (p + w) as int)) =~= body_layout(s@));
    } else {
        assert(s@.subrange(0, p as int) =~= s@.subrange(0, (p + w) as int));
        assert(lm =~= body_layout(s@));
    }
    let end = p + w;
    proof {
        reveal(body_end);
    }
    let rest = input.slice(end, s.len());
    Some((rest, b.children))
}

/// Appends all of `v` to the builder.
fn append_tokens(b: &mut NodeBuilder, v: Vec<GreenElement>)
    requires
        all_tokens(old(b).children@),
        all_tokens(v@),
    ensures
        seq_text(final(b).children@) == seq_text(old(b).children@) + seq_text(v@),
        all_tokens(final(b).children@),
        final(b).children@ == old(b).children@ + v@,
{
    let mut v = v;
    proof {
        lemma_seq_text_concat(b.children@, v@);
    }
    let ghost a = b.children@;
    let ghost w = v@;
    b.children.append(&mut v);
    assert forall|i: int| 0 <= i < b.children@.len() implies #[trigger] b.children@[i] is Token by {
        if i < a.len() {
            assert(b.children@[i] == a[i]);
        } else {
            assert(b.children@[i] == w[i - a.len()]);
        }
    }
}

/// The length of `open BODY close` at the start of `s`.
pub open spec fn single_len(s: Seq<char>, open: char, close: char) -> Option<int> {
    let inner = s.subrange(1, s.len() as int);
    if s.len() > 0 && s[0] == open && date_ok(inner) && 1 + body_end(inner) < s.len() && s[1
        + body_end(inner)] == close {
        Some(2 + body_end(inner))
    } else {
        None
    }
}

/// The length of `open BODY close` at the start of `s`, with a second
/// `--open BODY close` where one follows.
pub open spec fn delimited_len(s: Seq<char>, open: char, close: char) -> Option<int> {
    match single_len(s, open, close) {
        Some(c) => {
            let t = s.subrange(c, s.len() as int);
            if t.len() > 2 && t[0] == '-' && t[1] == '-' && single_len(
                t.subrange(2, t.len() as int),
                open,
                close,
            ) is Some {
                Some(c + 2 + single_len(t.subrange(2, t.len() as int), open, close)->0)
            } else {
                Some(c)
            }
        },
        None => None,
    }
}

pub open spec fn open_kind(open: char) -> SyntaxKind {
    if open == '<' {
        SyntaxKind::L_ANGLE
    } else {
        SyntaxKind::L_BRACKET
    }
}

pub open spec fn close_kind(close: char) -> SyntaxKind {
    if close == '>' {
        SyntaxKind::R_ANGLE
    } else {
        SyntaxKind::R_BRACKET
    }
}

/// The tokens of `open BODY close` at the start of `s`: the opener, the
/// inside's tokens, the closer.
pub open spec fn single_layout(s: Seq<char>, open: char, close: char) -> Seq<(SyntaxKind, Seq<char>)> {
    seq![(open_kind(open), seq![open])] + body_layout(s.subrange(1, s.len() as int)) + seq![
        (close_kind(close), seq![close]),
    ]
}

/// Parses `open BODY close` into its tokens.
#[verifier::rlimit(80)]
fn single_timestamp<'a>(input: Input<'a>, open: char, close: char) -> (r: Option<(Input<'a>, Vec<GreenElement>)>)
    ensures
        r is Some <==> single_len(input.s@, open, close) is Some,
        r matches Some((rest, v)) ==> {
            &&& 2 <= single_len(input.s@, open, close)->0 <= input.s@.len()
            &&& seq_text(v@) == input.s@.subrange(0, single_len(input.s@, open, close)->0)
            &&& rest.s@ == input.s@.subrange(
                single_len(input.s@, open, close)->0,
                input.s@.len() as int,
            )
            &&& all_tokens(v@)
            &&& layout_matches(v@, single_layout(input.s@, open, close))
            &&& rest.c == input.c
        },
{
    if input.len() == 0 || input.s[0] != open {
        return None;
    }
    let (_, after_open) = input.take_split(1);
    let (after_body, body) = match timestamp_body(after_open) {
        Some(x) => x,
        None => {
            return None;
        },
    };
    if after_body.len() == 0 || after_body.s[0] != close {
        return None;
    }
    let mut b = NodeBuilder::new();
    let l = if open == '<' { SyntaxKind::L_ANGLE } else { SyntaxKind::L_BRACKET };
    let rk = if close == '>' { SyntaxKind::R_ANGLE } else { SyntaxKind::R_BRACKET };
    assert(seq_text(b.children@) =~= Seq::<char>::empty());
    let ghost c0 = b.children@;
    let ghost bv = body@;
    let _ = take_token(&mut b, input, 1, l);
    let ghost c1 = b.children@;
    append_tokens(&mut b, body);
    let ghost c2 = b.children@;
    let rest = take_token(&mut b, after_body, 1, rk);
    proof {
        let inner0 = input.s@.subrange(1, input.s@.len() as int);
        assert(input.s@.subrange(0, 1) =~= seq![open]);
        assert(after_body.s@.subrange(0, 1) =~= seq![close]);
        assert(layout_matches(c0, Seq::empty()));
        lemma_layout_push(c0, Seq::empty(), c1.last(), l, seq![open]);
        assert(c1 =~= c0.push(c1.last()));
        lemma_layout_concat(c1, seq![(open_kind(open), seq![open])], bv, body_layout(inner0));
        lemma_layout_push(c2, seq![(open_kind(open), seq![open])] + body_layout(inner0), b.children@.last(), rk, seq![close]);
        assert(Seq::<(SyntaxKind, Seq<char>)>::empty().push((l, seq![open])) =~= seq![(open_kind(open), seq![open])]);
        assert((seq![(open_kind(open), seq![open])] + body_layout(inner0)).push((rk, seq![close])) =~= single_layout(input.s@, open, close));
    }
    proof {
        let all = input.s@;
        let inner = all.subrange(1, all.len() as int);
        let be = body_end(inner);
        assert(after_open.s@ == inner);
        assert(after_body.s@ == inner.subrange(be, inner.len() as int));
        assert(rest.s@ =~= all.subrange(2 + be, all.len() as int));
        assert(seq_text(b.children@) + rest.s@ == all);
        assert(seq_text(b.children@) =~= all.subrange(0, 2 + be));
    }
    Some((rest, b.children))
}

/// The length of `--open BODY close` at the start of `t`.
pub open spec fn range_tail_len(t: Seq<char>, open: char, close: char) -> Option<int> {
    if t.len() > 2 && t[0] == '-' && t[1] == '-' && single_len(t.subrange(2, t.len() as int), open, close) is Some {
        Some(2 + single_len(t.subrange(2, t.len() as int), open, close)->0)
    } else {
        None
    }
}

/// The tokens of `--open BODY close` at the start of `t`.
pub open spec fn range_layout(t: Seq<char>, open: char, close: char) -> Seq<(SyntaxKind, Seq<char>)> {
    seq![(SyntaxKind::MINUS, seq!['-']), (SyntaxKind::MINUS, seq!['-'])] + single_layout(
        t.subrange(2, t.len() as int),
        open,
        close,
    )
}

/// The tokens of a timestamp `open BODY close`, with a range's tokens where
/// one follows.
pub open spec fn delimited_layout(s: Seq<char>, open: char, close: char) -> Seq<(SyntaxKind, Seq<char>)> {
    let c = single_len(s, open, close)->0;
    let t = s.subrange(c, s.len() as int);
    if range_tail_len(t, open, close) is Some {
        single_layout(s, open, close) + range_layout(t, open, close)
    } else {
        single_layout(s, open, close)
    }
}

/// Parses `--open BODY close` into its tokens, the dashes as two `MINUS`.
#[verifier::rlimit(100)]
fn range_tail<'a>(input: Input<'a>, open: char, close: char) -> (r: Option<(Input<'a>, Vec<GreenElement>)>)
    ensures
        r is Some <==> range_tail_len(input.s@, open, close) is Some,
        r matches Some((rest, v)) ==> {
            &&& 0 <= range_tail_len(input.s@, open, close)->0 <= input.s@.len()
            &&& seq_text(v@) + rest.s@ == input.s@
            &&& seq_text(v@).len() == range_tail_len(input.s@, open, close)->0
            &&& all_tokens(v@)
            &&& layout_matches(v@, range_layout(input.s@, open, close))
            &&& rest.c == input.c
        },
{
    let s = input.s;
    if !(s.len() > 2 && s[0] == '-' && s[1] == '-') {
        return None;
    }
    let (_, after_dashes) = input.take_split(2);
    let (rest, second) = match single_timestamp(after_dashes, open, close) {
        Some(x) => x,
        None => {
            return None;
        },
    };
    let mut b = NodeBuilder::new();
    assert(seq_text(b.children@) =~= Seq::<char>::empty());
    let ghost k0 = b.children@;
    let c2 = take_token(&mut b, input, 1, SyntaxKind::MINUS);
    let ghost k1 = b.children@;
    let c3 = take_token(&mut b, c2, 1, SyntaxKind::MINUS);
    let ghost k2 = b.children@;
    let ghost sv = second@;
    proof {
        assert(c3.s@ =~= after_dashes.s@);
        assert(seq_text(b.children@) + after_dashes.s@ == input.s@);
        assert(input.s@.subrange(0, 1) =~= seq!['-']);
        assert(c2.s@.subrange(0, 1) =~= seq!['-']);
        let d = seq![(SyntaxKind::MINUS, seq!['-'])];
        assert(layout_matches(k0, Seq::empty()));
        lemma_layout_push(k0, Seq::empty(), k1.last(), SyntaxKind::MINUS, seq!['-']);
        assert(Seq::<(SyntaxKind, Seq<char>)>::empty().push((SyntaxKind::MINUS, seq!['-'])) =~= d);
        lemma_layout_push(k1, d, k2.last(), SyntaxKind::MINUS, seq!['-']);
        lemma_layout_concat(k2, d.push((SyntaxKind::MINUS, seq!['-'])), sv, single_layout(after_dashes.s@, open, close));
        assert(after_dashes.s@ =~= input.s@.subrange(2, input.s@.len() as int));
        assert(d.push((SyntaxKind::MINUS, seq!['-'])) + single_layout(after_dashes.s@, open, close) =~= range_layout(input.s@, open, close));
    }
    append_tokens(&mut b, second);
    proof {
        let n = single_len(after_dashes.s@, open, close)->0;
        assert(after_dashes.s@ =~= after_dashes.s@.subrange(0, n) + after_dashes.s@.subrange(
            n,
            after_dashes.s@.len() as int,
        ));
        assert(seq_text(b.children@) + rest.s@ =~= input.s@);
    }
    Some((rest, b.children))
}

/// Parses `open BODY close`, optionally followed by `--open BODY close`.
#[verifier::rlimit(80)]
fn timestamp_delimited<'a>(input: Input<'a>, open: char, close: char, kind: SyntaxKind) -> (r: Option<(Input<'a>, GreenElement)>)
    ensures
        r is Some <==> delimited_len(input.s@, open, close) is Some,
        r matches Some((rest, e)) ==> {
            &&& input.s@ == elem_text(e) + rest.s@
            &&& elem_text(e).len() == delimited_len(input.s@, open, close)->0
            &&& is_node(e, kind)
            &&& all_tokens(elem_children(e))
            &&& layout_matches(elem_children(e), delimited_layout(input.s@, open, close))
            &&& rest.c == input.c
            &&& elem_text(e).len() > 0
        },
{
    let (rest, first) = match single_timestamp(input, open, close) {
        Some(x) => x,
        None => {
            return None;
        },
    };
    let mut b = NodeBuilder::new();
    assert(seq_text(b.children@) =~= Seq::<char>::empty());
    let ghost c: int = single_len(input.s@, open, close)->0;
    let ghost k0 = b.children@;
    let ghost fv = first@;
    append_tokens(&mut b, first);
    let mut cur = rest;
    proof {
        assert(k0 + fv =~= fv);
        assert(seq_text(b.children@) =~= input.s@.subrange(0, c));
        assert(input.s@ =~= input.s@.subrange(0, c) + input.s@.subrange(c, input.s@.len() as int));
    }
    match range_tail(rest, open, close) {
        Some((rest2, second)) => {
            let ghost k1 = b.children@;
            let ghost sv = second@;
            append_tokens(&mut b, second);
            proof {
                assert(input.s@ =~= seq_text(b.children@) + rest2.s@);
                lemma_layout_concat(k1, single_layout(input.s@, open, close), sv, range_layout(rest.s@, open, close));
            }
            cur = rest2;
        },
        None => {},
    }
    let e = b.finish(kind);
    Some((cur, e))
}

/// The first position from `from` on holding `>` or a line break, or the end.
pub open spec fn diary_stop(s: Seq<char>, from: int) -> int
    decreases s.len() - from,
{
    if from < 0 || from >= s.len() || s[from] == '>' || s[from] == '\n' {
        from
    } else {
        diary_stop(s, from + 1)
    }
}

/// The length of a diary timestamp `<%%(...)>` at the start of `s`.
pub open spec fn diary_len(s: Seq<char>) -> Option<int> {
    if s.len() >= 6 && s[0] == '<' && s[1] == '%' && s[2] == '%' && s[3] == '(' {
        let e = diary_stop(s, 4);
        if e < s.len() && s[e] == '>' && s[e - 1] == ')' {
            Some(e + 1)
        } else {
            None
        }
    } else {
        None
    }
}

/// The length of the timestamp at the start of `s`: a diary one, else an
/// active one, else an inactive one.
pub open spec fn timestamp_len(s: Seq<char>) -> Option<int> {
    match diary_len(s) {
        Some(n) => Some(n),
        None => match delimited_len(s, '<', '>') {
            Some(n) => Some(n),
            None => delimited_len(s, '[', ']'),
        },
    }
}

/// The kind of the timestamp at the start of `s`.
pub open spec fn timestamp_kind_of(s: Seq<char>) -> SyntaxKind {
    if diary_len(s) is Some {
        SyntaxKind::TIMESTAMP_DIARY
    } else if delimited_len(s, '<', '>') is Some {
        SyntaxKind::TIMESTAMP_ACTIVE
    } else {
        SyntaxKind::TIMESTAMP_INACTIVE
    }
}

/// The tokens of a diary timestamp: `<`, `%%`, its body as `TEXT`, `>`.
pub open spec fn diary_layout(s: Seq<char>) -> Seq<(SyntaxKind, Seq<char>)> {
    let e = diary_stop(s, 4);
    seq![
        piece(SyntaxKind::L_ANGLE, s, 0, 1),
        piece(SyntaxKind::PERCENT2, s, 1, 3),
        piece(SyntaxKind::TEXT, s, 3, e),
        piece(SyntaxKind::R_ANGLE, s, e, e + 1),
    ]
}

/// The tokens of the timestamp at the start of `s`, in order.
#[verifier::opaque]
pub open spec fn timestamp_layout(s: Seq<char>) -> Seq<(SyntaxKind, Seq<char>)> {
    if diary_len(s) is Some {
        diary_layout(s)
    } else if delimited_len(s, '<', '>') is Some {
        delimited_layout(s, '<', '>')
    } else {
        delimited_layout(s, '[', ']')
    }
}

/// Parses a diary timestamp `<%%(...)>`, keeping its body as `TEXT`.
#[verifier::rlimit(60)]
fn timestamp_diary<'a>(input: Input<'a>) -> (r: Option<(Input<'a>, GreenElement)>)
    ensures
        r is Some <==> diary_len(input.s@) is Some,
        r matches Some((rest, e)) ==> {
            &&& input.s@ == elem_text(e) + rest.s@
            &&& elem_text(e).len() == diary_len(input.s@)->0
            &&& is_node(e, SyntaxKind::TIMESTAMP_DIARY)
            &&& all_tokens(elem_children(e))
            &&& layout_matches(elem_children(e), diary_layout(input.s@))
            &&& rest.c == input.c
            &&& elem_text(e).len() > 0
        },
{
    let s = input.s;
    if !(s.len() >= 6 && s[0] == '<' && s[1] == '%' && s[2] == '%' && s[3] == '(') {
        return None;
    }
    let mut e: usize = 4;
    while e < s.len() && s[e] != '>' && s[e] != '\n'
        invariant
            4 <= e <= s@.len(),
            diary_stop(s@, 4) == diary_stop(s@, e as int),
        decreases s@.len() - e,
    {
        e = e + 1;
    }
    if e >= s.len() || s[e] != '>' || s[e - 1] != ')' {
        return None;
    }
    let mut b = NodeBuilder::new();
    assert(seq_text(b.children@) =~= Seq::<char>::empty());
    let ghost k0 = b.children@;
    let cur1 = take_token(&mut b, input, 1, SyntaxKind::L_ANGLE);
    let ghost k1 = b.children@;
    let cur2 = take_token(&mut b, cur1, 2, SyntaxKind::PERCENT2);
    let ghost k2 = b.children@;
    let cur3 = take_token(&mut b, cur2, e - 3, SyntaxKind::TEXT);
    let ghost k3 = b.children@;
    let cur = take_token(&mut b, cur3, 1, SyntaxKind::R_ANGLE);
    assert(input.s@ =~= seq_text(b.children@) + cur.s@);
    proof {
        let all = input.s@;
        let l0 = Seq::<(SyntaxKind, Seq<char>)>::empty();
        assert(layout_matches(k0, l0));
        lemma_layout_push(k0, l0, k1.last(), SyntaxKind::L_ANGLE, input.s@.subrange(0, 1));
        let l1 = l0.push(piece(SyntaxKind::L_ANGLE, all, 0, 1));
        assert(cur1.s@.subrange(0, 2) =~= all.subrange(1, 3));
        lemma_layout_push(k1, l1, k2.last(), SyntaxKind::PERCENT2, cur1.s@.subrange(0, 2));
        let l2 = l1.push(piece(SyntaxKind::PERCENT2, all, 1, 3));
        assert(cur2.s@.subrange(0, e - 3) =~= all.subrange(3, e as int));
        lemma_layout_push(k2, l2, k3.last(), SyntaxKind::TEXT, cur2.s@.subrange(0, e - 3));
        let l3 = l2.push(piece(SyntaxKind::TEXT, all, 3, e as int));
        assert(cur3.s@.subrange(0, 1) =~= all.subrange(e as int, e + 1));
        lemma_layout_push(k3, l3, b.children@.last(), SyntaxKind::R_ANGLE, cur3.s@.subrange(0, 1));
        assert(l3.push(piece(SyntaxKind::R_ANGLE, all, e as int, e + 1)) =~= diary_layout(all));
    }
    let n = b.finish(SyntaxKind::TIMESTAMP_DIARY);
    Some((cur, n))
}

/// Parses a timestamp: diary `<%%(...)>`, active `<...>` or inactive `[...]`,
/// each of the last two optionally a range `...--...`. It takes exactly the
/// timestamp that `timestamp_len` measures, if any.
pub fn timestamp_node<'a>(input: Input<'a>) -> (r: Option<(Input<'a>, GreenElement)>)
    ensures
        r is Some <==> timestamp_len(input.s@) is Some,
        r matches Some((rest, e)) ==> {
            &&& input.s@ == elem_text(e) + rest.s@
            &&& elem_text(e).len() == timestamp_len(input.s@)->0
            &&& is_node(e, timestamp_kind_of(input.s@))
            &&& e matches GreenElement::Node(n) && is_timestamp_kind(n.kind)
            &&& all_tokens(elem_children(e))
            &&& layout_matches(elem_children(e), timestamp_layout(input.s@))
            &&& well_formed(e)
            &&& rest.c == input.c
            &&& elem_text(e).len() > 0
        },
{
    let mut r = timestamp_diary(input);
    if r.is_none() {
        r = timestamp_delimited(input, '<', '>', SyntaxKind::TIMESTAMP_ACTIVE);
    }
    if r.is_none() {
        r = timestamp_delimited(input, '[', ']', SyntaxKind::TIMESTAMP_INACTIVE);
    }
    let ghost rg = r;
    proof {
        reveal(timestamp_layout);
        match rg {
            Some((_, GreenElement::Node(n))) => {
                lemma_flat_well_formed(n);
            },
            _ => {},
        }
    }
    r
}

/// `s[a..b]` holds no line break.
pub open spec fn no_newline(s: Seq<char>, a: int, b: int) -> bool {
    forall|k: int| a <= k < b ==> s[k] != '\n'
}

proof fn lemma_digit_run_no_newline(s: Seq<char>, from: int)
    requires
        0 <= from <= s.len(),
    ensures
        from + digit_run(s, from) <= s.len(),
        no_newline(s, from, from + digit_run(s, from)),
    decreases s.len() - from,
{
    if from < s.len() && is_digit(s[from]) {
        lemma_digit_run_no_newline(s, from + 1);
    }
}

proof fn lemma_blank_run_no_newline(s: Seq<char>, from: int)
    requires
        0 <= from <= s.len(),
    ensures
        from + blank_run(s, from) <= s.len(),
        no_newline(s, from, from + blank_run(s, from)),
    decreases s.len() - from,
{
    if from < s.len() && is_blank(s[from]) {
        lemma_blank_run_no_newline(s, from + 1);
    }
}

proof fn lemma_dayname_run_no_newline(s: Seq<char>, from: int)
    requires
        0 <= from <= s.len(),
    ensures
        from + dayname_run(s, from) <= s.len(),
        no_newline(s, from, from + dayname_run(s, from)),
    decreases s.len() - from,
{
    if from < s.len() && is_dayname(s[from]) {
        lemma_dayname_run_no_newline(s, from + 1);
    }
}

proof fn lemma_time_no_newline(s: Seq<char>, from: int)
    requires
        0 <= from <= s.len(),
    ensures
        from + time_len(s, from) <= s.len(),
        no_newline(s, from, from + time_len(s, from)),
{
    lemma_digit_run_no_newline(s, from);
    let h = digit_run(s, from);
    if time_len(s, from) > 0 {
        lemma_digit_run_no_newline(s, from + h + 1);
    }
}

proof fn lemma_after_time_no_newline(s: Seq<char>, p: int)
    requires
        0 <= p <= s.len(),
    ensures
        p <= after_time(s, p) <= s.len(),
        no_newline(s, p, after_time(s, p)),
{
    lemma_blank_run_no_newline(s, p);
    let w = blank_run(s, p);
    if w > 0 {
        lemma_time_no_newline(s, p + w);
        let t = time_len(s, p + w);
        let q = p + w + t;
        if t > 0 && q < s.len() && s[q] == '-' {
            lemma_time_no_newline(s, q + 1);
        }
    }
}

proof fn lemma_after_marks_no_newline(s: Seq<char>, p: int)
    requires
        0 <= p <= s.len(),
    ensures
        p <= after_marks(s, p) <= s.len(),
        no_newline(s, p, after_marks(s, p)),
    decreases s.len() - p,
{
    lemma_blank_run_no_newline(s, p);
    let w = blank_run(s, p);
    if !(w == 0 || p + w >= s.len()) {
        let m = mark_len(s, p + w);
        lemma_digit_run_no_newline(s, p + w + m);
        let v = digit_run(s, p + w + m);
        if !(m == 0 || v == 0 || p + w + m + v >= s.len() || !is_unit(s[p + w + m + v])) {
            lemma_after_marks_no_newline(s, p + w + m + v + 1);
        }
    }
}

/// The inside of a timestamp holds no line break.
proof fn lemma_body_no_newline(s: Seq<char>)
    requires
        date_ok(s),
    ensures
        10 <= body_end(s) <= s.len(),
        no_newline(s, 0, body_end(s)),
{
    reveal(body_end);
    lemma_digit_run_no_newline(s, 0);
    lemma_digit_run_no_newline(s, 5);
    lemma_digit_run_no_newline(s, 8);
    assert(no_newline(s, 0, 10));
    lemma_blank_run_no_newline(s, 10);
    let w = blank_run(s, 10);
    if w > 0 {
        lemma_dayname_run_no_newline(s, 10 + w as int);
    }
    let after_day = after_dayname(s, 10);
    lemma_after_time_no_newline(s, after_day);
    let start_marks = after_time(s, after_day);
    lemma_after_marks_no_newline(s, start_marks);
    let end_marks = after_marks(s, start_marks);
    lemma_blank_run_no_newline(s, end_marks);
}

proof fn lemma_single_no_newline(s: Seq<char>, open: char, close: char)
    requires
        single_len(s, open, close) is Some,
        open != '\n',
        close != '\n',
    ensures
        no_newline(s, 0, single_len(s, open, close)->0),
{
    let inner = s.subrange(1, s.len() as int);
    lemma_body_no_newline(inner);
    assert forall|k: int| 1 <= k < 1 + body_end(inner) implies s[k] != '\n' by {
        assert(s[k] == inner[k - 1]);
    }
}

proof fn lemma_diary_stop(s: Seq<char>, from: int)
    requires
        0 <= from <= s.len(),
    ensures
        from <= diary_stop(s, from) <= s.len(),
        no_newline(s, from, diary_stop(s, from)),
    decreases s.len() - from,
{
    if !(from >= s.len() || s[from] == '>' || s[from] == '\n') {
        lemma_diary_stop(s, from + 1);
    }
}

/// A timestamp holds no line break.
pub proof fn lemma_timestamp_no_newline(s: Seq<char>)
    requires
        timestamp_len(s) is Some,
    ensures
        0 < timestamp_len(s)->0 <= s.len(),
        no_newline(s, 0, timestamp_len(s)->0),
{
    if diary_len(s) is Some {
        lemma_diary_stop(s, 4);
    } else {
        let (open, close) = if delimited_len(s, '<', '>') is Some {
            ('<', '>')
        } else {
            ('[', ']')
        };
        lemma_single_no_newline(s, open, close);
        let c = single_len(s, open, close)->0;
        let inner0 = s.subrange(1, s.len() as int);
        lemma_body_no_newline(inner0);
        let t = s.subrange(c, s.len() as int);
        if t.len() > 2 && t[0] == '-' && t[1] == '-' && single_len(t.subrange(2, t.len() as int), open, close) is Some {
            let u = t.subrange(2, t.len() as int);
            lemma_single_no_newline(u, open, close);
            let inner = u.subrange(1, u.len() as int);
            lemma_body_no_newline(inner);
            assert forall|k: int| c <= k < c + 2 + single_len(u, open, close)->0 implies s[k] != '\n' by {
                if k >= c + 2 {
                    assert(s[k] == u[k - c - 2]);
                }
            }
        }
    }
}

/// A timestamp starts with `<`, or with `[` and a digit.
pub proof fn lemma_timestamp_start(s: Seq<char>)
    requires
        timestamp_len(s) is Some,
    ensures
        s.len() >= 2,
        s[0] == '<' || (s[0] == '[' && is_digit(s[1])),
        s[1] == '%' || is_digit(s[1]),
{
    if diary_len(s) is None {
        let open = if delimited_len(s, '<', '>') is Some { '<' } else { '[' };
        let close = if open == '<' { '>' } else { ']' };
        let inner = s.subrange(1, s.len() as int);
        assert(single_len(s, open, close) is Some);
        assert(date_ok(inner));
        assert(inner[0] == s[1]);
        assert(digit_run(inner, 0) == 4);
    }
}

/// `blank_run` counts exactly the spaces and tabs that precede the first other character.
pub proof fn lemma_blank_run_exact(s: Seq<char>, a: int, n: int)
    requires
        0 <= a,
        a + n <= s.len(),
        0 <= n,
        forall|k: int| a <= k < a + n ==> is_blank(#[trigger] s[k]),
        a + n == s.len() || !is_blank(s[a + n]),
    ensures
        blank_run(s, a) == n,
    decreases n,
{
    if n > 0 {
        lemma_blank_run_exact(s, a + 1, n - 1);
    }
}

} // verus!
