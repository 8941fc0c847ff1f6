use vstd::prelude::*;
use crate::combinator::{
    is_single_line,
    NodeBuilder, all_space_tab, all_ws, is_ascii_ws, is_ascii_whitespace, is_space_tab, space0,
    trim_line_end, pushed, pushed_token_opt, line_content,
};
use crate::config::ParseConfig;
use crate::input::{Input, slice_range};
use crate::kind::SyntaxKind;
use crate::ast::{first_node_from, first_token_from};
use crate::object::object_nodes;
use crate::timestamp::{blank_run, lemma_blank_run_bound, lemma_blank_run_exact};
use crate::planning::planning_node;
use crate::drawer::property_drawer_node;
use crate::section::{headline_line_at, lemma_line_at_shift, section_node};
use crate::text::{chars_of, chars_eq};
use crate::shape::{
    all_tag_chars, child_rule, children_well_formed, headline_level, is_tag_char, lemma_children_push,
    lemma_plain_elem, lemma_tags_elem, lemma_tokens_elem, tag_child_ok, well_formed,
};
use crate::tree::{
    GreenElement, elem_children, elem_text, is_node, is_token, lemma_seq_text_push, node,
    seq_text, token,
};

verus! {

/// The number of `*` that `s` starts with.
pub open spec fn star_count(s: Seq<char>) -> nat
    decreases s.len(),
{
    if s.len() > 0 && s[0] == '*' {
        1 + star_count(s.drop_first())
    } else {
        0
    }
}

/// `s` starts with a headline: one or more `*`, followed by a space, a line
/// terminator or the end.
pub open spec fn starts_headline(s: Seq<char>) -> bool {
    let n = star_count(s);
    n > 0 && (n == s.len() || s[n as int] == ' ' || s[n as int] == '\n' || s[n as int] == '\r')
}

pub proof fn lemma_star_count(s: Seq<char>, n: int)
    requires
        0 <= n <= s.len(),
        forall|k: int| 0 <= k < n ==> s[k] == '*',
        n == s.len() || s[n] != '*',
    ensures
        star_count(s) == n,
    decreases n,
{
    if n > 0 {
        assert forall|k: int| 0 <= k < n - 1 implies s.drop_first()[k] == '*' by {
            assert(s.drop_first()[k] == s[k + 1]);
        }
        lemma_star_count(s.drop_first(), n - 1);
    }
}

pub proof fn lemma_star_count_bound(s: Seq<char>)
    ensures
        star_count(s) <= s.len(),
        forall|k: int| 0 <= k < star_count(s) ==> s[k] == '*',
        star_count(s) == s.len() || s[star_count(s) as int] != '*',
    decreases s.len(),
{
    if s.len() > 0 && s[0] == '*' {
        lemma_star_count_bound(s.drop_first());
        assert forall|k: int| 0 <= k < star_count(s) implies s[k] == '*' by {
            if k > 0 {
                assert(s[k] == s.drop_first()[k - 1]);
            }
        }
    }
}

/// The number of `*` at the start of `s`.
pub fn count_stars(s: &[char]) -> (r: usize)
    ensures
        r == star_count(s@),
        r <= s@.len(),
{
    let mut i: usize = 0;
    while i < s.len() && s[i] == '*'
        invariant
            i <= s@.len(),
            forall|k: int| 0 <= k < i ==> s@[k] == '*',
        decreases s@.len() - i,
    {
        i = i + 1;
    }
    proof {
        lemma_star_count(s@, i as int);
    }
    i
}

/// Whether `s` starts with a headline.
pub fn is_headline_start(s: &[char]) -> (r: bool)
    ensures
        r == starts_headline(s@),
{
    let n = count_stars(s);
    n > 0 && (n == s.len() || s[n] == ' ' || s[n] == '\n' || s[n] == '\r')
}

/// The number of consecutive characters of `s` from `from` that are not
/// ASCII whitespace.
pub open spec fn word_run(s: Seq<char>, from: int) -> nat
    decreases s.len() - from,
{
    if 0 <= from < s.len() && !is_ascii_ws(s[from]) {
        1 + word_run(s, from + 1)
    } else {
        0
    }
}

/// Where the first word after a headline's stars and the blanks after them starts.
pub open spec fn keyword_pos(s: Seq<char>) -> int {
    (star_count(s) + blank_run(s, star_count(s) as int)) as int
}

/// The first word after a headline's stars.
pub open spec fn headline_word(s: Seq<char>) -> Seq<char> {
    s.subrange(keyword_pos(s), keyword_pos(s) + word_run(s, keyword_pos(s)))
}

/// The first word after a headline's stars is a configured TODO keyword.
pub open spec fn has_keyword(c: &ParseConfig, s: Seq<char>) -> bool {
    word_run(s, keyword_pos(s)) > 0 && is_keyword(c, headline_word(s))
}

/// The children `cs` of a headline parsed from `s` hold its keyword exactly
/// when it has one.
pub open spec fn keyword_ok(cs: Seq<GreenElement>, c: &ParseConfig, s: Seq<char>) -> bool {
    match first_token_from(cs, SyntaxKind::HEADLINE_KEYWORD, 0) {
        Some(t) => has_keyword(c, s) && t.text@ == headline_word(s),
        None => !has_keyword(c, s),
    }
}

/// Where a headline's priority cookie may start: after the stars, the
/// blanks, and the keyword with its blanks, where there is one.
pub open spec fn after_keyword(c: &ParseConfig, s: Seq<char>) -> int {
    let kp = keyword_pos(s);
    if has_keyword(c, s) {
        let q = kp + word_run(s, kp);
        (q + blank_run(s, q)) as int
    } else {
        kp
    }
}

/// `s` holds a priority cookie `[#X]` at `q`.
pub open spec fn priority_at(s: Seq<char>, q: int) -> bool {
    0 <= q && q + 4 <= s.len() && s[q] == '[' && s[q + 1] == '#' && s[q + 3] == ']'
}

/// The children `cs` of a headline parsed from `s` hold its priority cookie
/// exactly when it has one.
pub open spec fn priority_ok(cs: Seq<GreenElement>, c: &ParseConfig, s: Seq<char>) -> bool {
    let q = after_keyword(c, s);
    match first_node_from(cs, SyntaxKind::HEADLINE_PRIORITY, 0) {
        Some(n) => priority_at(s, q) && priority_children_ok(n.children@, s.subrange(q, s.len() as int)),
        None => !priority_at(s, q),
    }
}

/// Where a headline's title starts: after the priority cookie and its
/// blanks, where there is one.
pub open spec fn head_end(c: &ParseConfig, s: Seq<char>) -> int {
    let q = after_keyword(c, s);
    if priority_at(s, q) {
        (q + 4 + blank_run(s, q + 4)) as int
    } else {
        q
    }
}

/// The title in the content `t` of a headline's line: what precedes the tags.
pub open spec fn title_of(t: Seq<char>) -> Seq<char> {
    match tags_start_at(t) {
        Some(i) => t.subrange(0, i),
        None => t,
    }
}

proof fn lemma_blank_run_chars(s: Seq<char>, p: int)
    requires
        0 <= p <= s.len(),
    ensures
        forall|k: int| p <= k < p + blank_run(s, p) ==> is_space_tab(#[trigger] s[k]),
        p + blank_run(s, p) <= s.len(),
    decreases s.len() - p,
{
    if p < s.len() && crate::timestamp::is_blank(s[p]) {
        lemma_blank_run_chars(s, p + 1);
    }
}

proof fn lemma_word_run_chars(s: Seq<char>, p: int)
    requires
        0 <= p <= s.len(),
    ensures
        forall|k: int| p <= k < p + word_run(s, p) ==> !is_ascii_ws(#[trigger] s[k]),
        p + word_run(s, p) <= s.len(),
    decreases s.len() - p,
{
    if p < s.len() && !is_ascii_ws(s[p]) {
        lemma_word_run_chars(s, p + 1);
    }
}

/// Before the title, a headline's line holds a line break only as its
/// priority character, which a `]` follows.
proof fn lemma_head_breaks(c: &ParseConfig, s: Seq<char>)
    requires
        starts_headline(s),
    ensures
        head_end(c, s) <= s.len(),
        forall|k: int| 0 <= k < head_end(c, s) && #[trigger] s[k] == '\n' ==> k + 1 < s.len() && s[k + 1] == ']',
{
    lemma_star_count_bound(s);
    let sc = star_count(s) as int;
    lemma_blank_run_chars(s, sc);
    let kp = keyword_pos(s);
    lemma_word_run_chars(s, kp);
    let q0 = kp + word_run(s, kp);
    lemma_blank_run_chars(s, q0);
    let q = after_keyword(c, s);
    if priority_at(s, q) {
        lemma_blank_run_chars(s, q + 4);
    }
    assert forall|k: int| 0 <= k < head_end(c, s) && #[trigger] s[k] == '\n' implies k + 1 < s.len() && s[k + 1] == ']' by {
        if k < sc {
        } else if k < kp {
        } else if has_keyword(c, s) && k < q0 {
        } else if k < q {
        } else {
            assert(priority_at(s, q));
            if k == q + 2 {
            } else if k >= q + 4 {
            }
        }
    }
}

/// Every headline that starts a line of `s` at a position in `[lo, hi)`,
/// other than the start, is of a level greater than `level`.
pub open spec fn deeper_within(s: Seq<char>, lo: int, hi: int, level: int) -> bool {
    forall|q: int|
        lo <= q < hi && 0 < q && #[trigger] headline_line_at(s, q) ==> star_count(
            s.subrange(q, s.len() as int),
        ) > level
}

/// The first line of a headline starts no other headline.
proof fn lemma_first_line_deeper(c: &ParseConfig, s: Seq<char>, a1: int, level: int)
    requires
        starts_headline(s),
        head_end(c, s) <= a1 <= s.len(),
        is_single_line(s.subrange(head_end(c, s), a1)),
    ensures
        deeper_within(s, 0, a1, level),
{
    lemma_head_breaks(c, s);
    let h = head_end(c, s);
    assert forall|q: int| 0 <= q < a1 && 0 < q && #[trigger] headline_line_at(s, q) implies star_count(
        s.subrange(q, s.len() as int),
    ) > level by {
        let t = s.subrange(q, s.len() as int);
        assert(star_count(t) > 0);
        assert(t[0] == s[q]);
        if q - 1 < h {
            assert(s[q] == ']');
        } else {
            let line = s.subrange(h, a1);
            assert(line[q - 1 - h] == s[q - 1]);
        }
    }
}

proof fn lemma_deeper_join(s: Seq<char>, a: int, b: int, c: int, level: int)
    requires
        deeper_within(s, a, b, level),
        deeper_within(s, b, c, level),
    ensures
        deeper_within(s, a, c, level),
{
}

/// A piece at `a` of length `n` at whose line starts no headline starts.
proof fn lemma_free_piece(s: Seq<char>, a: int, n: int, level: int)
    requires
        0 <= a <= a + n <= s.len(),
        crate::drawer::no_headline_lines(s.subrange(a, s.len() as int), 0, n),
    ensures
        deeper_within(s, a, a + n, level),
{
    let t = s.subrange(a, s.len() as int);
    assert forall|q: int| a <= q < a + n && 0 < q && #[trigger] headline_line_at(s, q) implies star_count(
        s.subrange(q, s.len() as int),
    ) > level by {
        lemma_line_at_shift(s, a, t, q - a);
        assert(t.subrange(q - a, t.len() as int) =~= s.subrange(q, s.len() as int));
    }
}

/// A single line at `a` of length `n` that does not start with `*`.
proof fn lemma_line_piece(s: Seq<char>, a: int, n: int, level: int)
    requires
        0 <= a,
        0 < n,
        a + n <= s.len(),
        is_single_line(s.subrange(a, a + n)),
        s[a] != '*',
    ensures
        deeper_within(s, a, a + n, level),
{
    let t = s.subrange(a, s.len() as int);
    assert(t.subrange(0, n) =~= s.subrange(a, a + n));
    assert(t.subrange(0, t.len() as int) =~= t);
    assert(t[0] == s[a]);
    assert(star_count(t) == 0);
    assert(crate::drawer::no_headline_lines(t, 0, 0));
    crate::drawer::lemma_no_headline_line(t, 0, n);
    lemma_free_piece(s, a, n, level);
}

/// A section at `a` of length `n` in which no headline starts.
proof fn lemma_section_piece(s: Seq<char>, a: int, n: int, level: int)
    requires
        0 <= a <= a + n <= s.len(),
        forall|q: int| 0 <= q < n ==> !headline_line_at(s.subrange(a, s.len() as int), q),
    ensures
        deeper_within(s, a, a + n, level),
{
    let t = s.subrange(a, s.len() as int);
    assert forall|q: int| a <= q < a + n && 0 < q && #[trigger] headline_line_at(s, q) implies star_count(
        s.subrange(q, s.len() as int),
    ) > level by {
        lemma_line_at_shift(s, a, t, q - a);
    }
}

/// A child headline at `a` of length `n`, deeper than `level`, whose own
/// headlines are deeper than it.
proof fn lemma_child_piece(s: Seq<char>, a: int, n: int, level: int)
    requires
        0 <= a <= a + n <= s.len(),
        star_count(s.subrange(a, s.len() as int)) > level,
        deeper_within(s.subrange(a, s.len() as int), 0, n, star_count(s.subrange(a, s.len() as int)) as int),
    ensures
        deeper_within(s, a, a + n, level),
{
    let t = s.subrange(a, s.len() as int);
    assert forall|q: int| a <= q < a + n && 0 < q && #[trigger] headline_line_at(s, q) implies star_count(
        s.subrange(q, s.len() as int),
    ) > level by {
        assert(t.subrange(q - a, t.len() as int) =~= s.subrange(q, s.len() as int));
        if q > a {
            lemma_line_at_shift(s, a, t, q - a);
        } else {
            assert(t =~= s.subrange(q, s.len() as int));
        }
    }
}

/// The children `cs` hold a title node exactly when the line content `t`
/// has a title, and a tags node exactly when it has tags, each with the text
/// that `t` gives it.
pub open spec fn title_tags_ok(cs: Seq<GreenElement>, t: Seq<char>) -> bool {
    &&& match first_node_from(cs, SyntaxKind::HEADLINE_TITLE, 0) {
        Some(n) => title_of(t).len() > 0 && seq_text(n.children@) == title_of(t),
        None => title_of(t).len() == 0,
    }
    &&& match first_node_from(cs, SyntaxKind::HEADLINE_TAGS, 0) {
        Some(n) => tags_start_at(t) is Some && seq_text(n.children@) == t.subrange(
            tags_start_at(t)->0,
            t.len() as int,
        ) && colons_between(n.children@),
        None => tags_start_at(t) is None,
    }
}

/// The content of a headline's line after its stars, keyword and priority.
pub open spec fn headline_content(c: &ParseConfig, s: Seq<char>) -> Seq<char> {
    line_content(s.subrange(head_end(c, s), s.len() as int))
}

/// What the children of a headline parsed from `s` hold of its line:
/// keyword, priority cookie, title and tags, each exactly when present.
pub open spec fn line_facts(cs: Seq<GreenElement>, c: &ParseConfig, s: Seq<char>) -> bool {
    &&& keyword_ok(cs, c, s)
    &&& priority_ok(cs, c, s)
    &&& title_tags_ok(cs, headline_content(c, s))
}

proof fn lemma_line_facts_step(old: Seq<GreenElement>, new: Seq<GreenElement>, c: &ParseConfig, s: Seq<char>)
    requires
        line_facts(old, c, s),
        first_token_from(new, SyntaxKind::HEADLINE_KEYWORD, 0) == first_token_from(old, SyntaxKind::HEADLINE_KEYWORD, 0),
        first_node_from(new, SyntaxKind::HEADLINE_PRIORITY, 0) == first_node_from(old, SyntaxKind::HEADLINE_PRIORITY, 0),
        first_node_from(new, SyntaxKind::HEADLINE_TITLE, 0) == first_node_from(old, SyntaxKind::HEADLINE_TITLE, 0),
        first_node_from(new, SyntaxKind::HEADLINE_TAGS, 0) == first_node_from(old, SyntaxKind::HEADLINE_TAGS, 0),
    ensures
        line_facts(new, c, s),
{
}

pub open spec fn is_priority_node(e: GreenElement) -> bool {
    e matches GreenElement::Node(n) && n.kind == SyntaxKind::HEADLINE_PRIORITY
}

proof fn lemma_first_node_push(cs: Seq<GreenElement>, k: SyntaxKind, e: GreenElement, i: int)
    requires
        0 <= i <= cs.len(),
    ensures
        first_node_from(cs.push(e), k, i) == match first_node_from(cs, k, i) {
            Some(n) => Some(n),
            None => match e {
                GreenElement::Node(n) => if n.kind == k {
                    Some(n)
                } else {
                    None
                },
                GreenElement::Token(_) => None,
            },
        },
    decreases cs.len() - i,
{
    let ps = cs.push(e);
    assert(ps[i] == if i < cs.len() { cs[i] } else { e });
    if i < cs.len() {
        lemma_first_node_push(cs, k, e, i + 1);
    } else {
        assert(first_node_from(ps, k, i + 1) is None);
    }
}

pub open spec fn is_keyword_token(e: GreenElement) -> bool {
    e matches GreenElement::Token(t) && t.kind == SyntaxKind::HEADLINE_KEYWORD
}

proof fn lemma_first_token_push(cs: Seq<GreenElement>, k: SyntaxKind, e: GreenElement, i: int)
    requires
        0 <= i <= cs.len(),
    ensures
        first_token_from(cs.push(e), k, i) == match first_token_from(cs, k, i) {
            Some(t) => Some(t),
            None => match e {
                GreenElement::Token(t) => if t.kind == k {
                    Some(t)
                } else {
                    None
                },
                GreenElement::Node(_) => None,
            },
        },
    decreases cs.len() - i,
{
    let ps = cs.push(e);
    assert(ps[i] == if i < cs.len() { cs[i] } else { e });
    if i < cs.len() {
        lemma_first_token_push(cs, k, e, i + 1);
    } else {
        assert(first_token_from(ps, k, i + 1) is None);
    }
}

proof fn lemma_word_run_bound(s: Seq<char>, from: int)
    requires
        0 <= from <= s.len(),
    ensures
        from + word_run(s, from) <= s.len(),
    decreases s.len() - from,
{
    if from < s.len() && !is_ascii_ws(s[from]) {
        lemma_word_run_bound(s, from + 1);
    }
}

proof fn lemma_word_run_shift(s: Seq<char>, a: int, k: int)
    requires
        0 <= a <= s.len(),
        0 <= k,
    ensures
        word_run(s.subrange(a, s.len() as int), k) == word_run(s, a + k),
    decreases s.len() - a - k,
{
    let t = s.subrange(a, s.len() as int);
    if k < t.len() {
        assert(t[k] == s[a + k]);
        lemma_word_run_shift(s, a, k + 1);
    }
}

/// `w` is one of the configured TODO keywords.
pub open spec fn is_keyword(c: &ParseConfig, w: Seq<char>) -> bool {
    (exists|i: int| 0 <= i < c.todo_keywords.0@.len() && #[trigger] c.todo_keywords.0@[i]@ == w)
        || (exists|i: int|
        0 <= i < c.todo_keywords.1@.len() && #[trigger] c.todo_keywords.1@[i]@ == w)
}

fn in_keywords(list: &Vec<String>, w: &[char]) -> (r: bool)
    ensures
        r == exists|i: int| 0 <= i < list@.len() && #[trigger] list@[i]@ == w@,
{
    let mut i: usize = 0;
    while i < list.len()
        invariant
            i <= list@.len(),
            forall|k: int| 0 <= k < i ==> #[trigger] list@[k]@ != w@,
        decreases list@.len() - i,
    {
        let k = chars_of(list[i].as_str());
        if chars_eq(&k, w) {
            return true;
        }
        i = i + 1;
    }
    false
}

/// Recognises the leading stars of a headline.
pub fn headline_stars<'a>(input: Input<'a>) -> (r: Option<(Input<'a>, Input<'a>)>)
    ensures
        r is Some <==> starts_headline(input.s@),
        r matches Some((rest, stars)) ==> {
            &&& stars.s@ == input.s@.subrange(0, star_count(input.s@) as int)
            &&& input.s@ == stars.s@ + rest.s@
            &&& rest.c == input.c
        },
{
    let level = count_stars(input.s);
    if level == 0 {
        None
    } else if input.len() == level {
        let (stars, rest) = input.take_split(level);
        Some((rest, stars))
    } else if input.s[level] == '\n' || input.s[level] == '\r' || input.s[level] == ' ' {
        let (stars, rest) = input.take_split(level);
        Some((rest, stars))
    } else {
        None
    }
}

/// Every segment of `s` between two consecutive colons at or after `lo` is
/// tag characters or spaces and tabs.
#[verifier::opaque]
pub open spec fn segments_ok(s: Seq<char>, lo: int) -> bool {
    forall|a: int, b: int|
        lo <= a < b < s.len() && #[trigger] s[a] == ':' && #[trigger] s[b] == ':' && (forall|m: int|
            a < m < b ==> s[m] != ':') ==> all_tag_chars(s.subrange(a + 1, b)) || all_space_tab(
            s.subrange(a + 1, b),
        )
}

proof fn lemma_segment(s: Seq<char>, lo: int, a: int, b: int)
    requires
        segments_ok(s, lo),
        lo <= a < b < s.len(),
        s[a] == ':',
        s[b] == ':',
        forall|m: int| a < m < b ==> s[m] != ':',
    ensures
        all_tag_chars(s.subrange(a + 1, b)) || all_space_tab(s.subrange(a + 1, b)),
{
    reveal(segments_ok);
}

fn is_tag_character(c: char) -> (r: bool)
    ensures
        r == is_tag_char(c),
{
    ('a' <= c && c <= 'z') || ('A' <= c && c <= 'Z') || ('0' <= c && c <= '9') || c == '_' || c
        == '@' || c == '#' || c == '%'
}

fn all_tag(s: &[char], a: usize, b: usize) -> (r: bool)
    requires
        a <= b <= s@.len(),
    ensures
        r == all_tag_chars(s@.subrange(a as int, b as int)),
{
    let mut i = a;
    while i < b
        invariant
            a <= i <= b <= s@.len(),
            forall|k: int| a <= k < i ==> is_tag_char(#[trigger] s@[k]),
        decreases b - i,
    {
        if !is_tag_character(s[i]) {
            assert(s@.subrange(a as int, b as int)[i - a] == s@[i as int]);
            return false;
        }
        i = i + 1;
    }
    assert forall|k: int| 0 <= k < b - a implies is_tag_char(
        #[trigger] s@.subrange(a as int, b as int)[k],
    ) by {
        assert(s@.subrange(a as int, b as int)[k] == s@[a + k]);
    }
    true
}

fn all_blank(s: &[char], a: usize, b: usize) -> (r: bool)
    requires
        a <= b <= s@.len(),
    ensures
        r == all_space_tab(s@.subrange(a as int, b as int)),
{
    let mut i = a;
    while i < b
        invariant
            a <= i <= b <= s@.len(),
            forall|k: int| a <= k < i ==> is_space_tab(#[trigger] s@[k]),
        decreases b - i,
    {
        if s[i] != ' ' && s[i] != '\t' {
            assert(s@.subrange(a as int, b as int)[i - a] == s@[i as int]);
            return false;
        }
        i = i + 1;
    }
    assert forall|k: int| 0 <= k < b - a implies is_space_tab(
        #[trigger] s@.subrange(a as int, b as int)[k],
    ) by {
        assert(s@.subrange(a as int, b as int)[k] == s@[a + k]);
    }
    true
}

/// The position of the last `:` of `s` before `end`, or -1.
pub open spec fn last_colon_before(s: Seq<char>, end: int) -> int
    decreases end,
{
    if end <= 0 {
        -1
    } else if s[end - 1] == ':' {
        end - 1
    } else {
        last_colon_before(s, end - 1)
    }
}

/// Scanning tag groups leftwards from the colon at `i`, where the group just
/// right of it was blank when `after_blank` holds: the position of the colon
/// at which the tags start. A group is empty, tag characters, or spaces and
/// tabs that do not follow another such group.
pub open spec fn tags_scan(s: Seq<char>, i: int, after_blank: bool) -> int
    decreases i,
{
    let ii = last_colon_before(s, i);
    if ii < 0 || ii >= i {
        i
    } else {
        let seg = s.subrange(ii + 1, i);
        if seg.len() == 0 || all_tag_chars(seg) {
            tags_scan(s, ii, false)
        } else if all_space_tab(seg) && !after_blank {
            tags_scan(s, ii, true)
        } else {
            i
        }
    }
}

/// Where the tags at the end of `s` start: `s` ends with a colon, at least
/// one group precedes it, and a space or a tab (or nothing) precedes them.
pub open spec fn tags_start_at(s: Seq<char>) -> Option<int> {
    if s.len() == 0 || s[s.len() - 1] != ':' {
        None
    } else {
        let i = tags_scan(s, s.len() - 1, true);
        if i == s.len() - 1 || (i != 0 && !is_space_tab(s[i - 1])) {
            None
        } else {
            Some(i)
        }
    }
}

/// The position of the last `:` before `end`, if any.
fn colon_before(s: &[char], end: usize) -> (r: Option<usize>)
    requires
        end <= s@.len(),
    ensures
        r matches Some(i) ==> i < end && s@[i as int] == ':' && forall|m: int|
            i < m < end ==> s@[m] != ':',
        r is None ==> forall|m: int| 0 <= m < end ==> s@[m] != ':',
        match r {
            Some(i) => last_colon_before(s@, end as int) == i,
            None => last_colon_before(s@, end as int) == -1,
        },
{
    let mut i = end;
    while i > 0
        invariant
            i <= end <= s@.len(),
            forall|m: int| i <= m < end ==> s@[m] != ':',
            last_colon_before(s@, end as int) == last_colon_before(s@, i as int),
        decreases i,
    {
        if s[i - 1] == ':' {
            return Some(i - 1);
        }
        i = i - 1;
    }
    None
}

/// The position of the first `:` at or after `start`; `s` has one there.
fn colon_after(s: &[char], start: usize) -> (r: usize)
    requires
        start < s@.len(),
        s@[s@.len() - 1] == ':',
    ensures
        start <= r < s@.len(),
        s@[r as int] == ':',
        forall|m: int| start <= m < r ==> s@[m] != ':',
{
    let mut i = start;
    while s[i] != ':'
        invariant
            start <= i < s@.len(),
            s@[s@.len() - 1] == ':',
            forall|m: int| start <= m < i ==> s@[m] != ':',
        decreases s@.len() - i,
    {
        i = i + 1;
    }
    i
}

/// `cs` starts and ends with a `COLON`, and every other child directly
/// follows a `COLON`: each stretch between two colons is a single token.
pub open spec fn colons_between(cs: Seq<GreenElement>) -> bool {
    &&& cs.len() >= 2
    &&& is_token(cs[0], SyntaxKind::COLON, seq![':'])
    &&& is_token(cs.last(), SyntaxKind::COLON, seq![':'])
    &&& forall|i: int|
        0 < i < cs.len() && !is_token(#[trigger] cs[i], SyntaxKind::COLON, seq![':']) ==> is_token(
            cs[i - 1],
            SyntaxKind::COLON,
            seq![':'],
        )
}

/// Scans tags from the right end of `s` (which ends with `:`): returns where
/// the tags start, where at least one tag group is found and the character
/// before them is a space or a tab.
fn tags_start(s: &[char]) -> (r: Option<usize>)
    requires
        s@.len() > 0,
        s@[s@.len() - 1] == ':',
    ensures
        r matches Some(i) ==> {
            &&& i < s@.len() - 1
            &&& s@[i as int] == ':'
            &&& segments_ok(s@, i as int)
            &&& i == 0 || is_space_tab(s@[i - 1])
        },
        match r {
            Some(i) => tags_start_at(s@) == Some(i as int),
            None => tags_start_at(s@) is None,
        },
{
    let len = s.len();
    let mut i: usize = len - 1;
    let mut can_not_be_ws = true;
    proof {
        reveal(segments_ok);
    }
    loop
        invariant
            i < len == s@.len(),
            s@[i as int] == ':',
            s@[len - 1] == ':',
            segments_ok(s@, i as int),
            tags_scan(s@, len - 1, true) == tags_scan(s@, i as int, can_not_be_ws),
        ensures
            i < len == s@.len(),
            s@[i as int] == ':',
            segments_ok(s@, i as int),
            tags_scan(s@, len - 1, true) == i,
        decreases i,
    {
        match colon_before(s, i) {
            None => {
                break;
            },
            Some(ii) => {
                let ghost before = can_not_be_ws;
                let ok = if ii + 1 == i {
                    can_not_be_ws = false;
                    true
                } else if all_tag(s, ii + 1, i) {
                    can_not_be_ws = false;
                    true
                } else if all_blank(s, ii + 1, i) && !can_not_be_ws {
                    can_not_be_ws = true;
                    true
                } else {
                    false
                };
                proof {
                    let seg = s@.subrange(ii + 1, i as int);
                    if ii + 1 == i {
                        assert(seg.len() == 0);
                    }
                    assert(tags_scan(s@, i as int, before) == if ok {
                        tags_scan(s@, ii as int, can_not_be_ws)
                    } else {
                        i as int
                    });
                }
                if !ok {
                    break;
                }
                proof {
                    reveal(segments_ok);
                    if ii + 1 == i {
                        assert(s@.subrange(ii + 1, i as int) =~= Seq::<char>::empty());
                    }
                    assert forall|a: int, b: int|
                        ii <= a < b < s@.len() && #[trigger] s@[a] == ':' && #[trigger] s@[b] == ':'
                            && (forall|m: int| a < m < b ==> s@[m] != ':') implies all_tag_chars(
                        s@.subrange(a + 1, b),
                    ) || all_space_tab(s@.subrange(a + 1, b)) by {
                        if a == ii {
                            if b != i {
                                assert(s@[i as int] == ':');
                            }
                        }
                    }
                }
                i = ii;
            },
        }
    }
    if i == len - 1 {
        return None;
    }
    if i != 0 && s[i - 1] != ' ' && s[i - 1] != '\t' {
        return None;
    }
    Some(i)
}

/// The children of a tags node covering `s[i..]`, left to right: a `COLON`
/// for each colon and a token for each non-empty segment between two.
fn tags_children(s: &[char], i: usize) -> (r: Vec<GreenElement>)
    requires
        i < s@.len() - 1,
        s@[i as int] == ':',
        s@[s@.len() - 1] == ':',
        segments_ok(s@, i as int),
    ensures
        seq_text(r@) == s@.subrange(i as int, s@.len() as int),
        forall|k: int| 0 <= k < r@.len() ==> tag_child_ok(#[trigger] r@[k]),
        colons_between(r@),
{
    let len = s.len();
    let mut children: Vec<GreenElement> = Vec::new();
    let colon = slice_range(s, i, i + 1);
    let c0 = token(SyntaxKind::COLON, colon);
    proof {
        lemma_seq_text_push(children@, c0);
        assert(colon@ =~= seq![':']);
        assert(seq_text(Seq::<GreenElement>::empty()) == Seq::<char>::empty());
    }
    children.push(c0);
    let mut j: usize = i + 1;
    while j < len
        invariant
            i < j <= len == s@.len(),
            s@[len - 1] == ':',
            s@[j - 1] == ':',
            segments_ok(s@, i as int),
            seq_text(children@) == s@.subrange(i as int, j as int),
            forall|k: int| 0 <= k < children@.len() ==> tag_child_ok(#[trigger] children@[k]),
            children@.len() >= 1,
            j > i + 1 ==> children@.len() >= 2,
            is_token(children@[0], SyntaxKind::COLON, seq![':']),
            is_token(children@.last(), SyntaxKind::COLON, seq![':']),
            forall|k: int|
                0 < k < children@.len() && !is_token(#[trigger] children@[k], SyntaxKind::COLON, seq![':'])
                    ==> is_token(children@[k - 1], SyntaxKind::COLON, seq![':']),
        decreases len - j,
    {
        let c = colon_after(s, j);
        let ghost before = children@;
        if c > j {
            let seg = slice_range(s, j, c);
            let is_tag = all_tag(s, j, c);
            proof {
                let a = j - 1;
                let b = c as int;
                lemma_segment(s@, i as int, a, b);
            }
            let kind = if is_tag {
                SyntaxKind::TEXT
            } else {
                SyntaxKind::WHITESPACE
            };
            let t = token(kind, seg);
            proof {
                lemma_seq_text_push(children@, t);
                assert(s@.subrange(i as int, j as int) + seg@ =~= s@.subrange(i as int, c as int));
            }
            children.push(t);
        } else {
            assert(s@.subrange(i as int, j as int) =~= s@.subrange(i as int, c as int));
        }
        let col = slice_range(s, c, c + 1);
        let t = token(SyntaxKind::COLON, col);
        proof {
            lemma_seq_text_push(children@, t);
            assert(col@ =~= seq![':']);
            assert(s@.subrange(i as int, c as int) + col@ =~= s@.subrange(i as int, c + 1));
        }
        children.push(t);
        proof {
            let n = before.len();
            assert forall|k: int|
                0 < k < children@.len() && !is_token(#[trigger] children@[k], SyntaxKind::COLON, seq![':'])
                    implies is_token(children@[k - 1], SyntaxKind::COLON, seq![':']) by {
                if k < n {
                    assert(children@[k] == before[k]);
                    assert(children@[k - 1] == before[k - 1]);
                } else if k == n {
                    assert(children@[k - 1] == before[n - 1]);
                }
            }
            assert(children@[0] == before[0]);
        }
        j = c + 1;
    }
    children
}

/// Recognises the tags at the end of a headline's line, scanning from the
/// right: returns the title before them and the `HEADLINE_TAGS` node.
pub fn headline_tags_node<'a>(input: Input<'a>) -> (r: Option<(Input<'a>, GreenElement)>)
    ensures
        r matches Some((title, tags)) ==> {
            &&& input.s@ == title.s@ + elem_text(tags)
            &&& is_node(tags, SyntaxKind::HEADLINE_TAGS)
            &&& well_formed(tags)
            &&& forall|i: int|
                0 <= i < elem_children(tags).len() ==> tag_child_ok(#[trigger] elem_children(tags)[i])
            &&& colons_between(elem_children(tags))
            &&& elem_text(tags).len() >= 2
            &&& elem_text(tags)[0] == ':'
            &&& elem_text(tags).last() == ':'
            &&& title.s@.len() == 0 || is_space_tab(title.s@.last())
            &&& 0 <= tags_start_at(input.s@)->0 <= input.s@.len()
            &&& title.s@ == input.s@.subrange(0, tags_start_at(input.s@)->0)
            &&& title.c == input.c
        },
        r is Some <==> tags_start_at(input.s@) is Some,
        r is Some ==> input.s@.len() >= 2 && input.s@.last() == ':',
{
    let s = input.s;
    let len = s.len();
    if len == 0 || s[len - 1] != ':' {
        return None;
    }
    match tags_start(s) {
        None => None,
        Some(i) => {
            let children = tags_children(s, i);
            let tags = node(SyntaxKind::HEADLINE_TAGS, children);
            proof {
                lemma_tags_elem(tags);
            }
            let (title, _) = input.take_split(i);
            proof {
                assert(input.s@ =~= title.s@ + s@.subrange(i as int, len as int));
                assert(elem_text(tags)[0] == s@[i as int]);
                if i > 0 {
                    assert(title.s@.last() == s@[i - 1]);
                }
            }
            Some((title, tags))
        },
    }
}

/// Recognises a TODO keyword (a whitespace-delimited word of the
/// configuration's sets) and the spaces after it.
fn headline_keyword_token<'a>(input: Input<'a>) -> (r: Option<(Input<'a>, (GreenElement, Input<'a>))>)
    ensures
        r is Some <==> (word_run(input.s@, 0) > 0 && is_keyword(
            input.c,
            input.s@.subrange(0, word_run(input.s@, 0) as int),
        )),
        r matches Some((rest, (kw, ws))) ==> is_token(
            kw,
            SyntaxKind::HEADLINE_KEYWORD,
            input.s@.subrange(0, word_run(input.s@, 0) as int),
        ),
        r matches Some((rest, (kw, ws))) ==> {
            &&& kw matches GreenElement::Token(t) && t.kind == SyntaxKind::HEADLINE_KEYWORD
                && t.text@.len() > 0 && is_keyword(input.c, t.text@)
            &&& input.s@ == elem_text(kw) + ws.s@ + rest.s@
            &&& all_space_tab(ws.s@)
            &&& (rest.s@.len() == 0 || !is_space_tab(rest.s@[0]))
            &&& rest.c == input.c
        },
{
    let s = input.s;
    let mut n: usize = 0;
    while n < s.len() && !is_ascii_whitespace(s[n])
        invariant
            n <= s@.len(),
            word_run(s@, 0) == n + word_run(s@, n as int),
        decreases s@.len() - n,
    {
        n = n + 1;
    }
    if n == 0 {
        return None;
    }
    let (word, rest) = input.take_split(n);
    if !(in_keywords(&input.c.todo_keywords.0, word.s) || in_keywords(&input.c.todo_keywords.1, word.s)) {
        return None;
    }
    let (rest2, ws) = space0(rest);
    let kw = word.token(SyntaxKind::HEADLINE_KEYWORD);
    assert(input.s@ =~= elem_text(kw) + ws.s@ + rest2.s@);
    Some((rest2, (kw, ws)))
}

/// The shape of a priority cookie: `[`, `#`, one character, `]`.
pub open spec fn priority_children_ok(cs: Seq<GreenElement>, s: Seq<char>) -> bool {
    &&& cs.len() == 4
    &&& is_token(cs[0], SyntaxKind::L_BRACKET, seq!['['])
    &&& is_token(cs[1], SyntaxKind::HASH, seq!['#'])
    &&& is_token(cs[2], SyntaxKind::TEXT, seq![s[2]])
    &&& is_token(cs[3], SyntaxKind::R_BRACKET, seq![']'])
}

/// Recognises a priority cookie `[#X]` and the spaces after it.
fn headline_priority_node<'a>(input: Input<'a>) -> (r: Option<(Input<'a>, (GreenElement, Input<'a>))>)
    ensures
        r is Some <==> input.s@.len() >= 4 && input.s@[0] == '[' && input.s@[1] == '#'
            && input.s@[3] == ']',
        r matches Some((rest, (p, ws))) ==> {
            &&& is_node(p, SyntaxKind::HEADLINE_PRIORITY)
            &&& well_formed(p)
            &&& priority_children_ok(elem_children(p), input.s@)
            &&& input.s@ == elem_text(p) + ws.s@ + rest.s@
            &&& elem_text(p).len() == 4
            &&& all_space_tab(ws.s@)
            &&& (rest.s@.len() == 0 || !is_space_tab(rest.s@[0]))
            &&& rest.c == input.c
        },
{
    let s = input.s;
    if !(s.len() >= 4 && s[0] == '[' && s[1] == '#' && s[3] == ']') {
        return None;
    }
    let mut b = NodeBuilder::new();
    b.token(SyntaxKind::L_BRACKET, input.slice(0, 1));
    b.token(SyntaxKind::HASH, input.slice(1, 2));
    b.token(SyntaxKind::TEXT, input.slice(2, 3));
    b.token(SyntaxKind::R_BRACKET, input.slice(3, 4));
    let ghost cs = b.children@;
    proof {
        assert(input.s@.subrange(0, 1) =~= seq!['[']);
        assert(input.s@.subrange(1, 2) =~= seq!['#']);
        assert(input.s@.subrange(2, 3) =~= seq![input.s@[2]]);
        assert(input.s@.subrange(3, 4) =~= seq![']']);
        assert(cs[0] == cs.drop_last().drop_last().drop_last()[0]);
        assert(cs[1] == cs.drop_last().drop_last()[1]);
        assert(cs[2] == cs.drop_last()[2]);
    }
    let p = b.finish(SyntaxKind::HEADLINE_PRIORITY);
    proof {
        assert forall|i: int| 0 <= i < elem_children(p).len() implies #[trigger] elem_children(p)[i] is Token by {}
        lemma_tokens_elem(p);
    }
    let (_, after) = input.take_split(4);
    let (rest, ws) = space0(after);
    proof {
        assert(seq_text(cs) =~= input.s@.subrange(0, 4));
        assert(input.s@ =~= elem_text(p) + ws.s@ + rest.s@);
    }
    Some((rest, (p, ws)))
}

/// The children of a headline so far: they start with `first` and are well
/// formed as children of a headline of level `level`.
pub open spec fn building_ok(level: int, first: GreenElement, cs: Seq<GreenElement>) -> bool {
    cs.len() >= 1 && cs[0] == first && children_well_formed(SyntaxKind::HEADLINE, level, cs)
}

proof fn lemma_building_step(level: int, first: GreenElement, old: Seq<GreenElement>, new: Seq<GreenElement>)
    requires
        building_ok(level, first, old),
        new == old || (new.len() == old.len() + 1 && new.drop_last() == old && well_formed(new.last())
            && child_rule(SyntaxKind::HEADLINE, level, new.last())),
    ensures
        building_ok(level, first, new),
        !(new != old && is_keyword_token(new.last())) ==> first_token_from(
            new,
            SyntaxKind::HEADLINE_KEYWORD,
            0,
        ) == first_token_from(old, SyntaxKind::HEADLINE_KEYWORD, 0),
        !(new != old && is_priority_node(new.last())) ==> first_node_from(
            new,
            SyntaxKind::HEADLINE_PRIORITY,
            0,
        ) == first_node_from(old, SyntaxKind::HEADLINE_PRIORITY, 0),
        !(new != old && is_node(new.last(), SyntaxKind::HEADLINE_TITLE)) ==> first_node_from(
            new,
            SyntaxKind::HEADLINE_TITLE,
            0,
        ) == first_node_from(old, SyntaxKind::HEADLINE_TITLE, 0),
        !(new != old && is_node(new.last(), SyntaxKind::HEADLINE_TAGS)) ==> first_node_from(
            new,
            SyntaxKind::HEADLINE_TAGS,
            0,
        ) == first_node_from(old, SyntaxKind::HEADLINE_TAGS, 0),
{
    if new != old {
        assert(new =~= old.push(new.last()));
        lemma_children_push(SyntaxKind::HEADLINE, level, old, new.last());
        assert(new[0] == old[0]);
        lemma_first_token_push(old, SyntaxKind::HEADLINE_KEYWORD, new.last(), 0);
        lemma_first_node_push(old, SyntaxKind::HEADLINE_PRIORITY, new.last(), 0);
        lemma_first_node_push(old, SyntaxKind::HEADLINE_TITLE, new.last(), 0);
        lemma_first_node_push(old, SyntaxKind::HEADLINE_TAGS, new.last(), 0);
    }
}

/// After a priority cookie `p` at `q` and its blanks `ws`, the rest starts
/// where `head_end` says.
proof fn lemma_priority_rest(all: Seq<char>, q: int, cur: Seq<char>, p: Seq<char>, ws: Seq<char>, rest: Seq<char>)
    requires
        0 <= q <= all.len(),
        cur == all.subrange(q, all.len() as int),
        cur == p + ws + rest,
        p.len() == 4,
        all_space_tab(ws),
        rest.len() == 0 || !is_space_tab(rest[0]),
    ensures
        rest == all.subrange(q + 4 + blank_run(all, q + 4), all.len() as int),
        ws == all.subrange(q + 4, q + 4 + blank_run(all, q + 4)),
{
    let pw = p + ws;
    assert(cur == pw + rest);
    assert forall|k: int| q + 4 <= k < q + 4 + ws.len() implies is_space_tab(#[trigger] all[k]) by {
        assert(all.subrange(q, all.len() as int)[k - q] == all[k]);
        assert(pw[k - q] == ws[k - q - 4]);
        assert(cur[k - q] == pw[k - q]);
    }
    if q + 4 + ws.len() < all.len() {
        assert(all.subrange(q, all.len() as int)[(4 + ws.len()) as int] == all[q + 4 + ws.len()]);
        assert(cur[pw.len() as int] == rest[0]);
    }
    lemma_blank_run_exact(all, q + 4, ws.len() as int);
    assert forall|k: int| 0 <= k < rest.len() implies #[trigger] rest[k] == all[q + 4 + ws.len() + k] by {
        assert(cur[pw.len() + k] == rest[k]);
        assert(all.subrange(q, all.len() as int)[4 + ws.len() + k] == all[q + 4 + ws.len() + k]);
    }
    assert(rest =~= all.subrange(q + 4 + ws.len(), all.len() as int));
    assert forall|k: int| 0 <= k < ws.len() implies #[trigger] ws[k] == all[q + 4 + k] by {
        assert(pw[4 + k] == ws[k]);
        assert(cur[4 + k] == pw[4 + k]);
        assert(all.subrange(q, all.len() as int)[4 + k] == all[q + 4 + k]);
    }
    assert(ws =~= all.subrange(q + 4, q + 4 + ws.len()));
}

/// After a keyword `kw` and its blanks `ws`, the rest starts where
/// `after_keyword` says.
proof fn lemma_after_keyword_rest(all: Seq<char>, cur: Seq<char>, kw: Seq<char>, ws: Seq<char>, rest: Seq<char>)
    requires
        0 <= keyword_pos(all) <= all.len(),
        cur == all.subrange(keyword_pos(all), all.len() as int),
        cur == kw + ws + rest,
        kw == cur.subrange(0, word_run(cur, 0) as int),
        all_space_tab(ws),
        rest.len() == 0 || !is_space_tab(rest[0]),
    ensures
        rest == all.subrange(keyword_pos(all) + word_run(all, keyword_pos(all)) + blank_run(
            all,
            keyword_pos(all) + word_run(all, keyword_pos(all)),
        ), all.len() as int),
        ws == all.subrange(keyword_pos(all) + word_run(all, keyword_pos(all)), keyword_pos(all) + word_run(all, keyword_pos(all)) + blank_run(
            all,
            keyword_pos(all) + word_run(all, keyword_pos(all)),
        )),
        kw == all.subrange(keyword_pos(all), keyword_pos(all) + word_run(all, keyword_pos(all))),
{
    let kp = keyword_pos(all);
    lemma_word_run_shift(all, kp, 0);
    lemma_word_run_bound(all, kp);
    let q = kp + word_run(all, kp);
    assert(kw.len() == word_run(all, kp));
    assert forall|k: int| q <= k < q + ws.len() implies is_space_tab(#[trigger] all[k]) by {
        assert(all[k] == cur[k - kp]);
        assert(cur[k - kp] == ws[k - q]);
    }
    if q + ws.len() < all.len() {
        assert(all[q + ws.len()] == cur[q + ws.len() - kp]);
        assert(rest[0] == cur[(kw.len() + ws.len()) as int]);
    }
    lemma_blank_run_exact(all, q, ws.len() as int);
    assert forall|k: int| 0 <= k < rest.len() implies #[trigger] rest[k] == all[q + ws.len() + k] by {
        assert(rest[k] == cur[kw.len() + ws.len() + k]);
    }
    assert(rest =~= all.subrange(q + ws.len(), all.len() as int));
    assert forall|k: int| 0 <= k < ws.len() implies #[trigger] ws[k] == all[q + k] by {
        assert(cur[kw.len() + k] == ws[k]);
        assert(all[q + k] == cur[q + k - kp]);
    }
    assert(ws =~= all.subrange(q, q + ws.len()));
    assert forall|k: int| 0 <= k < kw.len() implies #[trigger] kw[k] == all[kp + k] by {
        assert(cur[k] == kw[k]);
    }
    assert(kw =~= all.subrange(kp, q));
}

/// What one child of a headline's line must be: a token of a kind and text,
/// a priority cookie, a title holding `t`'s objects, or tags covering `t`.
pub enum Slot {
    Tok(SyntaxKind, Seq<char>),
    Prio(Seq<char>),
    Title(Seq<char>),
    Tags(Seq<char>),
}

pub open spec fn slot_ok(e: GreenElement, sl: Slot) -> bool {
    match sl {
        Slot::Tok(k, t) => is_token(e, k, t),
        Slot::Prio(t) => is_node(e, SyntaxKind::HEADLINE_PRIORITY) && priority_children_ok(elem_children(e), t),
        Slot::Title(t) => is_node(e, SyntaxKind::HEADLINE_TITLE) && crate::object::objects_ok(elem_children(e), t),
        Slot::Tags(t) => is_node(e, SyntaxKind::HEADLINE_TAGS) && seq_text(elem_children(e)) == t
            && colons_between(elem_children(e)) && forall|i: int|
            0 <= i < elem_children(e).len() ==> tag_child_ok(#[trigger] elem_children(e)[i]),
    }
}

/// The children `cs` are, one for one, what the slots `sls` ask.
pub open spec fn slots_match(cs: Seq<GreenElement>, sls: Seq<Slot>) -> bool {
    cs.len() == sls.len() && forall|i: int| 0 <= i < cs.len() ==> slot_ok(#[trigger] cs[i], sls[i])
}

proof fn lemma_slots_push(cs: Seq<GreenElement>, sls: Seq<Slot>, e: GreenElement, sl: Slot)
    requires
        slots_match(cs, sls),
        slot_ok(e, sl),
    ensures
        slots_match(cs.push(e), sls.push(sl)),
{
    assert forall|i: int| 0 <= i < cs.len() + 1 implies slot_ok(#[trigger] cs.push(e)[i], sls.push(sl)[i]) by {
        if i < cs.len() {
            assert(cs.push(e)[i] == cs[i]);
        }
    }
}

/// A token of kind `k` holding `t`, where `t` is not empty.
pub open spec fn opt_tok(k: SyntaxKind, t: Seq<char>) -> Seq<Slot> {
    if t.len() > 0 {
        seq![Slot::Tok(k, t)]
    } else {
        seq![]
    }
}

/// After a builder step that pushes a token of kind `k` and text `t` where
/// `t` is not empty, the children match one more optional slot.
proof fn lemma_slots_opt(old: Seq<GreenElement>, new: Seq<GreenElement>, sls: Seq<Slot>, k: SyntaxKind, t: Seq<char>)
    requires
        slots_match(old, sls),
        crate::combinator::pushed_token_opt(old, new, k, t),
    ensures
        slots_match(new, sls + opt_tok(k, t)),
{
    if t.len() > 0 {
        assert(new =~= old.push(new.last()));
        lemma_slots_push(old, sls, new.last(), Slot::Tok(k, t));
        assert(sls + opt_tok(k, t) =~= sls.push(Slot::Tok(k, t)));
    } else {
        assert(sls + opt_tok(k, t) =~= sls);
    }
}

/// The slots of the keyword and its blanks, where the line has a keyword.
pub open spec fn keyword_slots(c: &ParseConfig, s: Seq<char>) -> Seq<Slot> {
    let kp = keyword_pos(s);
    let q0 = kp + word_run(s, kp);
    if has_keyword(c, s) {
        seq![Slot::Tok(SyntaxKind::HEADLINE_KEYWORD, s.subrange(kp, q0))] + opt_tok(
            SyntaxKind::WHITESPACE,
            s.subrange(q0, q0 + blank_run(s, q0)),
        )
    } else {
        seq![]
    }
}

/// The slots of the priority cookie and its blanks, where the line has one.
pub open spec fn priority_slots(c: &ParseConfig, s: Seq<char>) -> Seq<Slot> {
    let q = after_keyword(c, s);
    if priority_at(s, q) {
        seq![Slot::Prio(s.subrange(q, s.len() as int))] + opt_tok(
            SyntaxKind::WHITESPACE,
            s.subrange(q + 4, q + 4 + blank_run(s, q + 4)),
        )
    } else {
        seq![]
    }
}

/// The slots of a headline's line up to its title: stars, blanks, keyword,
/// priority.
pub open spec fn head_slots(c: &ParseConfig, s: Seq<char>) -> Seq<Slot> {
    let sc = star_count(s) as int;
    seq![Slot::Tok(SyntaxKind::HEADLINE_STARS, s.subrange(0, sc))] + opt_tok(
        SyntaxKind::WHITESPACE,
        s.subrange(sc, sc + blank_run(s, sc)),
    ) + keyword_slots(c, s) + priority_slots(c, s)
}

/// The slots of the rest `t` of a headline's line: title, tags, trailing
/// blanks, line terminator.
pub open spec fn line_slots(t: Seq<char>) -> Seq<Slot> {
    let ct = line_content(t);
    let n = ct.len() as int;
    let w = blank_run(t, n) as int;
    let le = crate::combinator::line_stop(t, 0);
    (if title_of(ct).len() > 0 {
        seq![Slot::Title(title_of(ct))]
    } else {
        seq![]
    }) + (if tags_start_at(ct) is Some {
        seq![Slot::Tags(ct.subrange(tags_start_at(ct)->0, n))]
    } else {
        seq![]
    }) + opt_tok(SyntaxKind::WHITESPACE, t.subrange(n, n + w)) + opt_tok(
        SyntaxKind::NEW_LINE,
        t.subrange(n + w, le),
    )
}

/// The slots of a whole headline line of `s`.
pub open spec fn headline_line_slots(c: &ParseConfig, s: Seq<char>) -> Seq<Slot> {
    head_slots(c, s) + line_slots(s.subrange(head_end(c, s), s.len() as int))
}

/// Parses the keyword of a headline's line, from `cur`, which starts where
/// the first word after the stars does.
fn push_keyword<'a>(
    input: Input<'a>,
    cur: Input<'a>,
    b: NodeBuilder,
    Ghost(level): Ghost<int>,
    Ghost(first): Ghost<GreenElement>,
    Ghost(sl): Ghost<Seq<Slot>>,
) -> (r: (Input<'a>, NodeBuilder))
    requires
        slots_match(b.children@, sl),
        building_ok(level, first, b.children@),
        0 <= keyword_pos(input.s@) <= input.s@.len(),
        cur.s@ == input.s@.subrange(keyword_pos(input.s@), input.s@.len() as int),
        input.s@ == seq_text(b.children@) + cur.s@,
        cur.c == input.c,
        first_token_from(b.children@, SyntaxKind::HEADLINE_KEYWORD, 0) is None,
    ensures
        building_ok(level, first, r.1.children@),
        input.s@ == seq_text(r.1.children@) + r.0.s@,
        r.0.s@.len() <= cur.s@.len(),
        r.0.c == input.c,
        keyword_ok(r.1.children@, input.c, input.s@),
        slots_match(r.1.children@, sl + keyword_slots(input.c, input.s@)),
        r.0.s@ == input.s@.subrange(after_keyword(input.c, input.s@), input.s@.len() as int),
        first_node_from(r.1.children@, SyntaxKind::HEADLINE_PRIORITY, 0) == first_node_from(
            b.children@,
            SyntaxKind::HEADLINE_PRIORITY,
            0,
        ),
        first_node_from(r.1.children@, SyntaxKind::HEADLINE_TITLE, 0) == first_node_from(
            b.children@,
            SyntaxKind::HEADLINE_TITLE,
            0,
        ),
        first_node_from(r.1.children@, SyntaxKind::HEADLINE_TAGS, 0) == first_node_from(
            b.children@,
            SyntaxKind::HEADLINE_TAGS,
            0,
        ),
{
    let mut b = b;
    let mut cur = cur;
    proof {
        lemma_word_run_shift(input.s@, keyword_pos(input.s@), 0);
        lemma_word_run_bound(cur.s@, 0);
        let wl = word_run(cur.s@, 0) as int;
        assert forall|k: int| 0 <= k < wl implies #[trigger] cur.s@[k] == input.s@[keyword_pos(input.s@) + k] by {}
        assert(cur.s@.subrange(0, wl) =~= headline_word(input.s@));
    }
    match headline_keyword_token(cur) {
        Some((i, (kw, ws))) => {
            let ghost c1 = b.children@;
            b.push(kw);
            proof {
                lemma_building_step(level, first, c1, b.children@);
                assert(b.children@ =~= c1.push(kw));
                lemma_first_token_push(c1, SyntaxKind::HEADLINE_KEYWORD, kw, 0);
            }
            let ghost c2 = b.children@;
            b.ws(ws);
            proof {
                lemma_building_step(level, first, c2, b.children@);
                lemma_after_keyword_rest(input.s@, cur.s@, elem_text(kw), ws.s@, i.s@);
                let all = input.s@;
                let kp = keyword_pos(all);
                let q0 = kp + word_run(all, kp);
                let ks = Slot::Tok(SyntaxKind::HEADLINE_KEYWORD, all.subrange(kp, q0));
                lemma_slots_push(c1, sl, kw, ks);
                lemma_slots_opt(c2, b.children@, sl.push(ks), SyntaxKind::WHITESPACE, ws.s@);
                assert(sl.push(ks) + opt_tok(SyntaxKind::WHITESPACE, ws.s@) =~= sl + keyword_slots(input.c, all));
            }
            cur = i;
        },
        None => {
            assert(sl + keyword_slots(input.c, input.s@) =~= sl);
        },
    }
    assert(keyword_ok(b.children@, input.c, input.s@));
    assert(cur.s@ =~= input.s@.subrange(after_keyword(input.c, input.s@), input.s@.len() as int));
    (cur, b)
}

/// Parses the priority cookie of a headline's line, from `cur`, which starts
/// after the keyword.
fn push_priority<'a>(
    input: Input<'a>,
    cur: Input<'a>,
    b: NodeBuilder,
    Ghost(level): Ghost<int>,
    Ghost(first): Ghost<GreenElement>,
    Ghost(sl): Ghost<Seq<Slot>>,
) -> (r: (Input<'a>, NodeBuilder))
    requires
        slots_match(b.children@, sl),
        building_ok(level, first, b.children@),
        0 <= after_keyword(input.c, input.s@) <= input.s@.len(),
        cur.s@ == input.s@.subrange(after_keyword(input.c, input.s@), input.s@.len() as int),
        input.s@ == seq_text(b.children@) + cur.s@,
        cur.c == input.c,
        first_node_from(b.children@, SyntaxKind::HEADLINE_PRIORITY, 0) is None,
        keyword_ok(b.children@, input.c, input.s@),
    ensures
        building_ok(level, first, r.1.children@),
        input.s@ == seq_text(r.1.children@) + r.0.s@,
        r.0.s@.len() <= cur.s@.len(),
        r.0.c == input.c,
        keyword_ok(r.1.children@, input.c, input.s@),
        priority_ok(r.1.children@, input.c, input.s@),
        slots_match(r.1.children@, sl + priority_slots(input.c, input.s@)),
        r.0.s@ == input.s@.subrange(head_end(input.c, input.s@), input.s@.len() as int),
        first_node_from(r.1.children@, SyntaxKind::HEADLINE_TITLE, 0) == first_node_from(
            b.children@,
            SyntaxKind::HEADLINE_TITLE,
            0,
        ),
        first_node_from(r.1.children@, SyntaxKind::HEADLINE_TAGS, 0) == first_node_from(
            b.children@,
            SyntaxKind::HEADLINE_TAGS,
            0,
        ),
{
    let mut b = b;
    let mut cur = cur;
    proof {
        let q = after_keyword(input.c, input.s@);
        if cur.s@.len() >= 4 {
            assert(cur.s@[0] == input.s@[q]);
            assert(cur.s@[1] == input.s@[q + 1]);
            assert(cur.s@[3] == input.s@[q + 3]);
        }
    }
    match headline_priority_node(cur) {
        Some((i, (p, ws))) => {
            let ghost c1 = b.children@;
            b.push(p);
            proof {
                lemma_building_step(level, first, c1, b.children@);
                assert(b.children@ =~= c1.push(p));
                lemma_first_node_push(c1, SyntaxKind::HEADLINE_PRIORITY, p, 0);
                assert(priority_ok(b.children@, input.c, input.s@));
            }
            let ghost c2 = b.children@;
            b.ws(ws);
            proof {
                lemma_building_step(level, first, c2, b.children@);
                lemma_priority_rest(input.s@, after_keyword(input.c, input.s@), cur.s@, elem_text(p), ws.s@, i.s@);
                let all = input.s@;
                let q = after_keyword(input.c, all);
                let ps = Slot::Prio(all.subrange(q, all.len() as int));
                lemma_slots_push(c1, sl, p, ps);
                lemma_slots_opt(c2, b.children@, sl.push(ps), SyntaxKind::WHITESPACE, ws.s@);
                assert(sl.push(ps) + opt_tok(SyntaxKind::WHITESPACE, ws.s@) =~= sl + priority_slots(input.c, all));
            }
            cur = i;
        },
        None => {
            assert(sl + priority_slots(input.c, input.s@) =~= sl);
        },
    }
    assert(input.s@ =~= seq_text(b.children@) + cur.s@);
    (cur, b)
}

/// Parses the keyword and the priority cookie of a headline's line, from
/// `cur`, which starts where the first word after the stars does.
fn headline_keyword_priority<'a>(
    input: Input<'a>,
    cur: Input<'a>,
    b: NodeBuilder,
    Ghost(level): Ghost<int>,
    Ghost(first): Ghost<GreenElement>,
    Ghost(sl): Ghost<Seq<Slot>>,
) -> (r: (Input<'a>, NodeBuilder))
    requires
        slots_match(b.children@, sl),
        building_ok(level, first, b.children@),
        0 <= keyword_pos(input.s@) <= input.s@.len(),
        cur.s@ == input.s@.subrange(keyword_pos(input.s@), input.s@.len() as int),
        input.s@ == seq_text(b.children@) + cur.s@,
        cur.c == input.c,
        first_token_from(b.children@, SyntaxKind::HEADLINE_KEYWORD, 0) is None,
        first_node_from(b.children@, SyntaxKind::HEADLINE_PRIORITY, 0) is None,
    ensures
        building_ok(level, first, r.1.children@),
        input.s@ == seq_text(r.1.children@) + r.0.s@,
        r.0.s@.len() <= cur.s@.len(),
        r.0.c == input.c,
        keyword_ok(r.1.children@, input.c, input.s@),
        priority_ok(r.1.children@, input.c, input.s@),
        slots_match(r.1.children@, sl + keyword_slots(input.c, input.s@) + priority_slots(input.c, input.s@)),
        r.0.s@ == input.s@.subrange(head_end(input.c, input.s@), input.s@.len() as int),
        first_node_from(r.1.children@, SyntaxKind::HEADLINE_TITLE, 0) == first_node_from(
            b.children@,
            SyntaxKind::HEADLINE_TITLE,
            0,
        ),
        first_node_from(r.1.children@, SyntaxKind::HEADLINE_TAGS, 0) == first_node_from(
            b.children@,
            SyntaxKind::HEADLINE_TAGS,
            0,
        ),
{
    let (cur1, b1) = push_keyword(input, cur, b, Ghost(level), Ghost(first), Ghost(sl));
    proof {
        let all = input.s@;
        let kp = keyword_pos(all);
        lemma_word_run_bound(all, kp);
        lemma_blank_run_bound(all, kp + word_run(all, kp));
    }
    push_priority(input, cur1, b1, Ghost(level), Ghost(first), Ghost(sl + keyword_slots(input.c, input.s@)))
}

/// Parses the start of a headline's line: stars, spaces, keyword, priority.
fn headline_head<'a>(input: Input<'a>) -> (r: Option<(Input<'a>, NodeBuilder)>)
    ensures
        r is Some <==> starts_headline(input.s@),
        r matches Some((cur, b)) ==> {
            let level = star_count(input.s@) as int;
            &&& input.s@ == seq_text(b.children@) + cur.s@
            &&& cur.s@.len() < input.s@.len()
            &&& cur.c == input.c
            &&& level >= 1
            &&& building_ok(level, b.children@[0], b.children@)
            &&& is_token(b.children@[0], SyntaxKind::HEADLINE_STARS, input.s@.subrange(0, level))
            &&& keyword_ok(b.children@, input.c, input.s@)
            &&& priority_ok(b.children@, input.c, input.s@)
            &&& cur.s@ == input.s@.subrange(head_end(input.c, input.s@), input.s@.len() as int)
            &&& first_node_from(b.children@, SyntaxKind::HEADLINE_TITLE, 0) is None
            &&& first_node_from(b.children@, SyntaxKind::HEADLINE_TAGS, 0) is None
            &&& slots_match(b.children@, head_slots(input.c, input.s@))
        },
{
    let (input1, stars) = match headline_stars(input) {
        Some(x) => x,
        None => {
            return None;
        },
    };
    let ghost level = stars.s@.len() as int;
    proof {
        lemma_star_count_bound(input.s@);
    }
    let mut b = NodeBuilder::new();
    b.token(SyntaxKind::HEADLINE_STARS, stars);
    let ghost first = b.children@[0];
    proof {
        assert(b.children@.drop_last() =~= Seq::<GreenElement>::empty());
        assert(children_well_formed(SyntaxKind::HEADLINE, level, Seq::<GreenElement>::empty()));
        assert(Seq::<GreenElement>::empty().push(first) =~= b.children@);
        lemma_children_push(SyntaxKind::HEADLINE, level, Seq::<GreenElement>::empty(), first);
        assert(seq_text(Seq::<GreenElement>::empty()) == Seq::<char>::empty());
        assert(seq_text(b.children@) =~= stars.s@);
    }
    let (input2, ws) = space0(input1);
    let ghost c0 = b.children@;
    b.ws(ws);
    proof {
        lemma_building_step(level, first, c0, b.children@);
        assert(first_token_from(c0, SyntaxKind::HEADLINE_KEYWORD, 1) is None);
        assert(first_token_from(c0, SyntaxKind::HEADLINE_KEYWORD, 0) is None);
        let sc = star_count(input.s@) as int;
        let all = input.s@;
        assert(input2.s@ =~= all.subrange(sc + ws.s@.len(), all.len() as int));
        assert forall|k: int| sc <= k < sc + ws.s@.len() implies is_space_tab(#[trigger] all[k]) by {
            assert(all[k] == ws.s@[k - sc]);
        }
        if sc + ws.s@.len() < all.len() {
            assert(all[sc + ws.s@.len()] == input2.s@[0]);
        }
        lemma_blank_run_exact(all, sc, ws.s@.len() as int);
        assert(keyword_pos(all) == sc + ws.s@.len());
        assert(input.s@ =~= seq_text(b.children@) + input2.s@);
        let ss = Slot::Tok(SyntaxKind::HEADLINE_STARS, all.subrange(0, sc));
        assert(slots_match(c0, seq![ss])) by {
            assert(c0[0] == first);
        }
        assert(ws.s@ =~= all.subrange(sc, sc + blank_run(all, sc)));
        lemma_slots_opt(c0, b.children@, seq![ss], SyntaxKind::WHITESPACE, ws.s@);
    }
    proof {
        assert(first_node_from(b.children@, SyntaxKind::HEADLINE_PRIORITY, 2) is None);
        assert(first_node_from(b.children@, SyntaxKind::HEADLINE_PRIORITY, 1) is None);
        assert(first_node_from(b.children@, SyntaxKind::HEADLINE_PRIORITY, 0) is None);
        assert(first_node_from(b.children@, SyntaxKind::HEADLINE_TITLE, 2) is None);
        assert(first_node_from(b.children@, SyntaxKind::HEADLINE_TITLE, 1) is None);
        assert(first_node_from(b.children@, SyntaxKind::HEADLINE_TITLE, 0) is None);
        assert(first_node_from(b.children@, SyntaxKind::HEADLINE_TAGS, 2) is None);
        assert(first_node_from(b.children@, SyntaxKind::HEADLINE_TAGS, 1) is None);
        assert(first_node_from(b.children@, SyntaxKind::HEADLINE_TAGS, 0) is None);
    }
    let ghost sl0 = seq![Slot::Tok(SyntaxKind::HEADLINE_STARS, input.s@.subrange(0, star_count(input.s@) as int))]
        + opt_tok(SyntaxKind::WHITESPACE, input.s@.subrange(star_count(input.s@) as int, (star_count(input.s@) + blank_run(input.s@, star_count(input.s@) as int)) as int));
    let (cur, b) = headline_keyword_priority(input, input2, b, Ghost(level), Ghost(first), Ghost(sl0));
    assert(sl0 + keyword_slots(input.c, input.s@) + priority_slots(input.c, input.s@) =~= head_slots(input.c, input.s@));
    Some((cur, b))
}

/// The trailing blanks and the terminator of a line, as `trim_line_end`
/// splits them, stand where `line_slots` expects them.
proof fn lemma_trim_parts(t: Seq<char>, content: Seq<char>, ws: Seq<char>, nl: Seq<char>, rest: Seq<char>)
    requires
        t == content + ws + nl + rest,
        rest == t.subrange(crate::combinator::line_stop(t, 0), t.len() as int),
        all_space_tab(ws),
        nl.len() == 0 || !is_space_tab(nl[0]),
        nl.len() == 0 ==> rest.len() == 0,
    ensures
        ws == t.subrange(content.len() as int, (content.len() + blank_run(t, content.len() as int)) as int),
        nl == t.subrange((content.len() + blank_run(t, content.len() as int)) as int, crate::combinator::line_stop(t, 0)),
{
    let n = content.len() as int;
    let w = ws.len() as int;
    assert forall|k: int| n <= k < n + w implies crate::timestamp::is_blank(#[trigger] t[k]) by {
        assert(t[k] == ws[k - n]);
    }
    if n + w < t.len() {
        if nl.len() > 0 {
            assert(t[n + w] == nl[0]);
        }
    }
    lemma_blank_run_exact(t, n, w);
    assert(ws =~= t.subrange(n, n + w));
    crate::combinator::lemma_line_stop_bound(t, 0);
    assert(rest.len() == t.len() - crate::combinator::line_stop(t, 0));
    assert(nl =~= t.subrange(n + w, crate::combinator::line_stop(t, 0)));
}

/// The slots a headline line's rest gets, step by step, are `line_slots`.
proof fn lemma_line_slots_eq(
    sl: Seq<Slot>,
    t: Seq<char>,
    content: Seq<char>,
    title: Seq<char>,
    tags: Option<GreenElement>,
    ws: Seq<char>,
    nl: Seq<char>,
    rest: Seq<char>,
)
    requires
        t == content + ws + nl + rest,
        content == line_content(t),
        rest == t.subrange(crate::combinator::line_stop(t, 0), t.len() as int),
        all_space_tab(ws),
        nl.len() == 0 || !is_space_tab(nl[0]),
        nl.len() == 0 ==> rest.len() == 0,
        title == title_of(content),
        tags is Some <==> tags_start_at(content) is Some,
        tags matches Some(g) ==> elem_text(g) == content.subrange(tags_start_at(content)->0, content.len() as int),
    ensures
        ({
            let sl1 = if title.len() > 0 { sl.push(Slot::Title(title)) } else { sl };
            let sl2 = match tags {
                Some(g) => sl1.push(Slot::Tags(elem_text(g))),
                None => sl1,
            };
            sl2 + opt_tok(SyntaxKind::WHITESPACE, ws) + opt_tok(SyntaxKind::NEW_LINE, nl) == sl + line_slots(t)
        }),
{
    lemma_trim_parts(t, content, ws, nl, rest);
    let sl1 = if title.len() > 0 { sl.push(Slot::Title(title)) } else { sl };
    let sl2 = match tags {
        Some(g) => sl1.push(Slot::Tags(elem_text(g))),
        None => sl1,
    };
    assert(sl2 + opt_tok(SyntaxKind::WHITESPACE, ws) + opt_tok(SyntaxKind::NEW_LINE, nl) =~= sl + line_slots(t));
}

/// Parses the rest of a headline's line: title, tags, trailing whitespace and
/// the line terminator. Returns whether the line had a terminator.
#[verifier::rlimit(100)]
fn headline_line_end<'a>(cur: Input<'a>, b: NodeBuilder, Ghost(level): Ghost<int>, Ghost(sl): Ghost<Seq<Slot>>) -> (r: (Input<'a>, NodeBuilder, bool))
    requires
        slots_match(b.children@, sl),
        b.children@.len() >= 1,
        building_ok(level, b.children@[0], b.children@),
    ensures
        seq_text(b.children@) + cur.s@ == seq_text(r.1.children@) + r.0.s@,
        r.0.c == cur.c,
        r.0.s@.len() <= cur.s@.len(),
        building_ok(level, b.children@[0], r.1.children@),
        first_token_from(r.1.children@, SyntaxKind::HEADLINE_KEYWORD, 0) == first_token_from(
            b.children@,
            SyntaxKind::HEADLINE_KEYWORD,
            0,
        ),
        first_node_from(r.1.children@, SyntaxKind::HEADLINE_PRIORITY, 0) == first_node_from(
            b.children@,
            SyntaxKind::HEADLINE_PRIORITY,
            0,
        ),
        (first_node_from(b.children@, SyntaxKind::HEADLINE_TITLE, 0) is None && first_node_from(
            b.children@,
            SyntaxKind::HEADLINE_TAGS,
            0,
        ) is None) ==> title_tags_ok(r.1.children@, line_content(cur.s@)),
        !r.2 ==> r.0.s@.len() == 0,
        slots_match(r.1.children@, sl + line_slots(cur.s@)),
        is_single_line(cur.s@.subrange(0, cur.s@.len() - r.0.s@.len())),
        r.0.s@ == cur.s@.subrange(cur.s@.len() - r.0.s@.len(), cur.s@.len() as int),
{
    let mut b = b;
    let ghost first = b.children@[0];
    let ghost start = seq_text(b.children@);
    let (rest, (title_and_tags, ws_, nl)) = trim_line_end(cur);
    let (title, tags) = match headline_tags_node(title_and_tags) {
        Some((t, g)) => (t, Some(g)),
        None => (title_and_tags, None),
    };
    let ghost c0 = b.children@;
    let ghost t_content = title_and_tags.s@;
    proof {
        assert(title.s@ == title_of(t_content));
    }
    if !title.is_empty() {
        let t = node(SyntaxKind::HEADLINE_TITLE, object_nodes(title));
        proof {
            lemma_plain_elem(t);
        }
        let ghost c1 = b.children@;
        b.push(t);
        proof {
            lemma_building_step(level, first, c1, b.children@);
            assert(b.children@ =~= c1.push(t));
            lemma_first_node_push(c1, SyntaxKind::HEADLINE_TITLE, t, 0);
            lemma_slots_push(c1, sl, t, Slot::Title(title.s@));
        }
    } else {
        assert(seq_text(b.children@) + title.s@ =~= seq_text(b.children@));
    }
    let ghost sl1 = if title.s@.len() > 0 { sl.push(Slot::Title(title.s@)) } else { sl };
    let ghost c3 = b.children@;
    let ghost tags_g = tags;
    let ghost sl2 = match tags_g {
        Some(g) => sl1.push(Slot::Tags(elem_text(g))),
        None => sl1,
    };
    b.push_opt(tags);
    proof {
        lemma_building_step(level, first, c3, b.children@);
        match tags_g {
            Some(g) => {
                assert(b.children@ =~= c3.push(g));
                lemma_first_node_push(c3, SyntaxKind::HEADLINE_TAGS, g, 0);
                lemma_slots_push(c3, sl1, g, Slot::Tags(elem_text(g)));
                let i = tags_start_at(t_content)->0;
                assert(title.s@.len() == i);
                assert forall|k: int| 0 <= k < elem_text(g).len() implies #[trigger] elem_text(g)[k] == t_content[i + k] by {
                    assert(t_content[i + k] == (title.s@ + elem_text(g))[i + k]);
                }
                assert(elem_text(g) =~= t_content.subrange(i, t_content.len() as int));
            },
            None => {},
        }
    }
    let ghost c4 = b.children@;
    b.ws(ws_);
    proof {
        lemma_building_step(level, first, c4, b.children@);
        lemma_slots_opt(c4, b.children@, sl2, SyntaxKind::WHITESPACE, ws_.s@);
    }
    let ghost c5 = b.children@;
    b.nl(nl);
    proof {
        lemma_building_step(level, first, c5, b.children@);
        lemma_slots_opt(c5, b.children@, sl2 + opt_tok(SyntaxKind::WHITESPACE, ws_.s@), SyntaxKind::NEW_LINE, nl.s@);
        if first_node_from(c0, SyntaxKind::HEADLINE_TITLE, 0) is None && first_node_from(c0, SyntaxKind::HEADLINE_TAGS, 0) is None {
            assert(title_tags_ok(b.children@, line_content(cur.s@)));
        }
        assert(start + cur.s@ =~= seq_text(b.children@) + rest.s@);
        if nl.s@.len() == 0 && rest.s@.len() > 0 {
            let line = title_and_tags.s@ + ws_.s@ + nl.s@;
            assert(line.last() == '\n' || line.last() == '\r');
            if ws_.s@.len() > 0 {
                assert(line.last() == ws_.s@.last());
                assert(is_space_tab(ws_.s@[ws_.s@.len() - 1]));
            } else {
                assert(line =~= title_and_tags.s@);
            }
        }
    }
    let ended = !nl.is_empty();
    proof {
        let tt = cur.s@;
        assert(tt =~= title_and_tags.s@ + ws_.s@ + nl.s@ + rest.s@);
        lemma_line_slots_eq(sl, tt, title_and_tags.s@, title.s@, tags_g, ws_.s@, nl.s@, rest.s@);
        let line = title_and_tags.s@ + ws_.s@ + nl.s@;
        assert(cur.s@.subrange(0, cur.s@.len() - rest.s@.len()) =~= line);
        assert(rest.s@ =~= cur.s@.subrange(cur.s@.len() - rest.s@.len(), cur.s@.len() as int));
    }
    (rest, b, ended)
}

/// The place of a child after a headline's line: planning 1, property
/// drawer 2, section 3, headline 4.
pub open spec fn block_rank(e: GreenElement) -> int {
    if is_node(e, SyntaxKind::PLANNING) {
        1
    } else if is_node(e, SyntaxKind::PROPERTY_DRAWER) {
        2
    } else if is_node(e, SyntaxKind::SECTION) {
        3
    } else if is_node(e, SyntaxKind::HEADLINE) {
        4
    } else {
        0
    }
}

/// A child `e` after a headline's line, starting where `t` (the text from
/// there on) starts, inside a headline of level `level`.
pub open spec fn block_ok(e: GreenElement, c: &ParseConfig, t: Seq<char>, level: int) -> bool {
    let n = elem_text(e).len() as int;
    &&& 1 <= block_rank(e) <= 4
    &&& n > 0
    &&& n <= t.len()
    &&& is_node(e, SyntaxKind::PLANNING) ==> is_single_line(elem_text(e)) && t[0] != '*'
        && crate::planning::planning_start(line_content(t))
    &&& is_node(e, SyntaxKind::PROPERTY_DRAWER) ==> crate::drawer::no_headline_lines(t, 0, n)
        && crate::drawer::drawer_start(line_content(t))
    &&& is_node(e, SyntaxKind::SECTION) ==> (n == t.len() || headline_line_at(t, n)) && (forall|q: int|
        0 <= q < n ==> !headline_line_at(t, q)) && crate::section::section_body_ok(elem_children(e))
        && crate::section::plain_section(elem_children(e), t.subrange(0, n))
    &&& is_node(e, SyntaxKind::HEADLINE) ==> crate::document::headline_shape(e, c, t) && star_count(t)
        > level && deeper_within(t, 0, n, star_count(t) as int) && (n == t.len() || (starts_headline(
        t.subrange(n, t.len() as int),
    ) && star_count(t.subrange(n, t.len() as int)) <= star_count(t)))
}

/// The children of a headline from index `m` on: each a block at its offset
/// in `s`, in the order planning, drawer, section, headlines, each of the
/// first three at most once.
pub open spec fn blocks_ok(cs: Seq<GreenElement>, m: int, c: &ParseConfig, s: Seq<char>, level: int) -> bool {
    &&& forall|i: int|
        m <= i < cs.len() ==> block_ok(
            #[trigger] cs[i],
            c,
            s.subrange(crate::combinator::elem_offset(cs, i), s.len() as int),
            level,
        )
    &&& forall|i: int, j: int|
        m <= i < j < cs.len() ==> block_rank(#[trigger] cs[i]) < block_rank(#[trigger] cs[j]) || (
        block_rank(cs[i]) == 4 && block_rank(cs[j]) == 4)
}

/// The blocks so far rank below `k`.
pub open spec fn blocks_below(cs: Seq<GreenElement>, m: int, k: int) -> bool {
    forall|i: int| m <= i < cs.len() ==> block_rank(#[trigger] cs[i]) < k
}

proof fn lemma_blocks_push(cs: Seq<GreenElement>, m: int, c: &ParseConfig, s: Seq<char>, level: int, e: GreenElement)
    requires
        0 <= m <= cs.len(),
        blocks_ok(cs, m, c, s, level),
        block_ok(e, c, s.subrange(seq_text(cs).len() as int, s.len() as int), level),
        blocks_below(cs, m, block_rank(e)) || block_rank(e) == 4,
    ensures
        blocks_ok(cs.push(e), m, c, s, level),
{
    let ps = cs.push(e);
    assert forall|i: int| m <= i < ps.len() implies block_ok(
        #[trigger] ps[i],
        c,
        s.subrange(crate::combinator::elem_offset(ps, i), s.len() as int),
        level,
    ) by {
        crate::combinator::lemma_offsets_push(cs, e, i);
        if i < cs.len() {
            assert(ps[i] == cs[i]);
        } else {
            assert(ps[i] == e);
            assert(cs.subrange(0, i) =~= cs);
        }
    }
    assert forall|i: int, j: int| m <= i < j < ps.len() implies block_rank(#[trigger] ps[i]) < block_rank(
        #[trigger] ps[j],
    ) || (block_rank(ps[i]) == 4 && block_rank(ps[j]) == 4) by {
        assert(ps[i] == cs[i]);
        if j < cs.len() {
            assert(ps[j] == cs[j]);
        } else {
            assert(ps[j] == e);
        }
    }
}

/// Parses the planning line that may follow a headline's line.
fn headline_planning<'a>(
    input: Input<'a>,
    cur: Input<'a>,
    b: NodeBuilder,
    Ghost(level): Ghost<int>,
    Ghost(first): Ghost<GreenElement>,
    Ghost(m): Ghost<int>,
) -> (r: (Input<'a>, NodeBuilder))
    requires
        0 <= m <= b.children@.len(),
        blocks_ok(b.children@, m, input.c, input.s@, level),
        blocks_below(b.children@, m, 1),
        building_ok(level, first, b.children@),
        line_facts(b.children@, input.c, input.s@),
        input.s@ == seq_text(b.children@) + cur.s@,
        cur.c == input.c,
        deeper_within(input.s@, 0, seq_text(b.children@).len() as int, level),
    ensures
        building_ok(level, first, r.1.children@),
        line_facts(r.1.children@, input.c, input.s@),
        input.s@ == seq_text(r.1.children@) + r.0.s@,
        r.0.c == input.c,
        r.0.s@.len() <= cur.s@.len(),
        deeper_within(input.s@, 0, seq_text(r.1.children@).len() as int, level),
        r.1.children@.len() >= b.children@.len(),
        r.1.children@.subrange(0, b.children@.len() as int) == b.children@,
        blocks_ok(r.1.children@, m, input.c, input.s@, level),
        blocks_below(r.1.children@, m, 2),
{
    let mut b = b;
    let ghost b_in = b.children@;
    let mut cur = cur;
    match planning_node(cur) {
        Some((i, p)) => {
            let ghost c1 = b.children@;
            b.push(p);
            proof {
                assert(b.children@.subrange(0, b_in.len() as int) =~= c1.subrange(0, b_in.len() as int));
                lemma_building_step(level, first, c1, b.children@);
                lemma_line_facts_step(c1, b.children@, input.c, input.s@);
                let s = input.s@;
                let a = seq_text(c1).len() as int;
                let n = elem_text(p).len() as int;
                assert(cur.s@ =~= s.subrange(a, s.len() as int));
                assert(s.subrange(a, a + n) =~= elem_text(p));
                assert(s[a] == cur.s@[0]);
                lemma_line_piece(s, a, n, level);
                lemma_deeper_join(s, 0, a, a + n, level);
                lemma_seq_text_push(c1, p);
                lemma_blocks_push(c1, m, input.c, s, level, p);
                assert forall|k: int| m <= k < c1.push(p).len() implies block_rank(#[trigger] c1.push(p)[k]) < 2 by {
                    if k < c1.len() {
                        assert(c1.push(p)[k] == c1[k]);
                    }
                }
                assert(b.children@ =~= c1.push(p));
            }
            cur = i;
        },
        None => {},
    }
    assert(b.children@.subrange(0, b_in.len() as int) =~= b_in);
    (cur, b)
}

/// Parses the property drawer that may follow.
fn headline_drawer<'a>(
    input: Input<'a>,
    cur: Input<'a>,
    b: NodeBuilder,
    Ghost(level): Ghost<int>,
    Ghost(first): Ghost<GreenElement>,
    Ghost(m): Ghost<int>,
) -> (r: (Input<'a>, NodeBuilder))
    requires
        0 <= m <= b.children@.len(),
        blocks_ok(b.children@, m, input.c, input.s@, level),
        blocks_below(b.children@, m, 2),
        building_ok(level, first, b.children@),
        line_facts(b.children@, input.c, input.s@),
        input.s@ == seq_text(b.children@) + cur.s@,
        cur.c == input.c,
        deeper_within(input.s@, 0, seq_text(b.children@).len() as int, level),
    ensures
        building_ok(level, first, r.1.children@),
        line_facts(r.1.children@, input.c, input.s@),
        input.s@ == seq_text(r.1.children@) + r.0.s@,
        r.0.c == input.c,
        r.0.s@.len() <= cur.s@.len(),
        deeper_within(input.s@, 0, seq_text(r.1.children@).len() as int, level),
        r.1.children@.len() >= b.children@.len(),
        r.1.children@.subrange(0, b.children@.len() as int) == b.children@,
        blocks_ok(r.1.children@, m, input.c, input.s@, level),
        blocks_below(r.1.children@, m, 3),
{
    let mut b = b;
    let ghost b_in = b.children@;
    let mut cur = cur;
    match property_drawer_node(cur) {
        Some((i, d)) => {
            let ghost c1 = b.children@;
            b.push(d);
            proof {
                assert(b.children@.subrange(0, b_in.len() as int) =~= c1.subrange(0, b_in.len() as int));
                lemma_building_step(level, first, c1, b.children@);
                lemma_line_facts_step(c1, b.children@, input.c, input.s@);
                let s = input.s@;
                let a = seq_text(c1).len() as int;
                let n = elem_text(d).len() as int;
                assert(cur.s@ =~= s.subrange(a, s.len() as int));
                lemma_free_piece(s, a, n, level);
                lemma_deeper_join(s, 0, a, a + n, level);
                lemma_seq_text_push(c1, d);
                lemma_blocks_push(c1, m, input.c, s, level, d);
                assert forall|k: int| m <= k < c1.push(d).len() implies block_rank(#[trigger] c1.push(d)[k]) < 3 by {
                    if k < c1.len() {
                        assert(c1.push(d)[k] == c1[k]);
                    }
                }
                assert(b.children@ =~= c1.push(d));
            }
            cur = i;
        },
        None => {},
    }
    assert(b.children@.subrange(0, b_in.len() as int) =~= b_in);
    (cur, b)
}

/// Parses the section that may follow, up to the next headline.
#[verifier::rlimit(100)]
fn headline_section<'a>(
    input: Input<'a>,
    cur: Input<'a>,
    b: NodeBuilder,
    Ghost(level): Ghost<int>,
    Ghost(first): Ghost<GreenElement>,
    Ghost(m): Ghost<int>,
) -> (r: (Input<'a>, NodeBuilder))
    requires
        0 <= m <= b.children@.len(),
        blocks_ok(b.children@, m, input.c, input.s@, level),
        blocks_below(b.children@, m, 3),
        building_ok(level, first, b.children@),
        line_facts(b.children@, input.c, input.s@),
        input.s@ == seq_text(b.children@) + cur.s@,
        cur.c == input.c,
        deeper_within(input.s@, 0, seq_text(b.children@).len() as int, level),
    ensures
        building_ok(level, first, r.1.children@),
        line_facts(r.1.children@, input.c, input.s@),
        input.s@ == seq_text(r.1.children@) + r.0.s@,
        r.0.c == input.c,
        r.0.s@.len() <= cur.s@.len(),
        deeper_within(input.s@, 0, seq_text(r.1.children@).len() as int, level),
        r.1.children@.len() >= b.children@.len(),
        r.1.children@.subrange(0, b.children@.len() as int) == b.children@,
        blocks_ok(r.1.children@, m, input.c, input.s@, level),
        blocks_below(r.1.children@, m, 4),
        r.0.s@.len() == 0 || starts_headline(r.0.s@),
{
    let mut b = b;
    let ghost b_in = b.children@;
    let mut cur = cur;
    match section_node(cur) {
        Some((i, sec)) => {
            let ghost c1 = b.children@;
            b.push(sec);
            proof {
                assert(b.children@.subrange(0, b_in.len() as int) =~= c1.subrange(0, b_in.len() as int));
                lemma_building_step(level, first, c1, b.children@);
                lemma_line_facts_step(c1, b.children@, input.c, input.s@);
                let s = input.s@;
                let a = seq_text(c1).len() as int;
                let n = elem_text(sec).len() as int;
                assert(cur.s@ =~= s.subrange(a, s.len() as int));
                lemma_section_piece(s, a, n, level);
                lemma_deeper_join(s, 0, a, a + n, level);
                lemma_seq_text_push(c1, sec);
                assert(cur.s@.subrange(0, n) =~= elem_text(sec));
                lemma_blocks_push(c1, m, input.c, s, level, sec);
                assert forall|k: int| m <= k < c1.push(sec).len() implies block_rank(#[trigger] c1.push(sec)[k]) < 4 by {
                    if k < c1.len() {
                        assert(c1.push(sec)[k] == c1[k]);
                    }
                }
                assert(b.children@ =~= c1.push(sec));
            }
            cur = i;
        },
        None => {},
    }
    assert(b.children@.subrange(0, b_in.len() as int) =~= b_in);
    (cur, b)
}

/// Parses what follows a headline's line: planning, property drawer and
/// section, each where present.
fn headline_blocks<'a>(
    input: Input<'a>,
    rest: Input<'a>,
    b: NodeBuilder,
    Ghost(level): Ghost<int>,
    Ghost(first): Ghost<GreenElement>,
    Ghost(m): Ghost<int>,
) -> (r: (Input<'a>, NodeBuilder))
    requires
        m == b.children@.len(),
        building_ok(level, first, b.children@),
        line_facts(b.children@, input.c, input.s@),
        input.s@ == seq_text(b.children@) + rest.s@,
        rest.c == input.c,
        deeper_within(input.s@, 0, seq_text(b.children@).len() as int, level),
    ensures
        building_ok(level, first, r.1.children@),
        line_facts(r.1.children@, input.c, input.s@),
        input.s@ == seq_text(r.1.children@) + r.0.s@,
        r.0.c == input.c,
        r.0.s@.len() <= rest.s@.len(),
        r.0.s@.len() == 0 || starts_headline(r.0.s@),
        deeper_within(input.s@, 0, seq_text(r.1.children@).len() as int, level),
        r.1.children@.len() >= b.children@.len(),
        r.1.children@.subrange(0, b.children@.len() as int) == b.children@,
        blocks_ok(r.1.children@, m, input.c, input.s@, level),
{
    let ghost b0 = b.children@;
    let (c1, b1) = headline_planning(input, rest, b, Ghost(level), Ghost(first), Ghost(m));
    let ghost v1 = b1.children@;
    let (c2, b2) = headline_drawer(input, c1, b1, Ghost(level), Ghost(first), Ghost(m));
    let ghost v2 = b2.children@;
    let (c3, b3) = headline_section(input, c2, b2, Ghost(level), Ghost(first), Ghost(m));
    proof {
        assert(b3.children@.subrange(0, b0.len() as int) =~= v2.subrange(0, v1.len() as int).subrange(0, b0.len() as int));
        assert(v2.subrange(0, v1.len() as int).subrange(0, b0.len() as int) =~= v1.subrange(0, b0.len() as int));
    }
    (c3, b3)
}

/// Parses a headline: its line (stars, keyword, priority, title, tags), its
/// section, and the headlines of greater level that follow it.
pub fn headline_node<'a>(input: Input<'a>) -> (r: Option<(Input<'a>, GreenElement)>)
    ensures
        r is Some <==> starts_headline(input.s@),
        r matches Some((rest, e)) ==> {
            &&& input.s@ == elem_text(e) + rest.s@
            &&& rest.s@.len() < input.s@.len()
            &&& rest.c == input.c
            &&& is_node(e, SyntaxKind::HEADLINE)
            &&& elem_children(e).len() > 0
            &&& is_token(
                elem_children(e)[0],
                SyntaxKind::HEADLINE_STARS,
                input.s@.subrange(0, star_count(input.s@) as int),
            )
            &&& headline_level(e) == star_count(input.s@)
            &&& deeper_within(input.s@, 0, elem_text(e).len() as int, star_count(input.s@) as int)
            &&& well_formed(e)
            &&& line_facts(elem_children(e), input.c, input.s@)
            &&& elem_children(e).len() >= headline_line_slots(input.c, input.s@).len()
            &&& slots_match(
                elem_children(e).subrange(0, headline_line_slots(input.c, input.s@).len() as int),
                headline_line_slots(input.c, input.s@),
            )
            &&& blocks_ok(
                elem_children(e),
                headline_line_slots(input.c, input.s@).len() as int,
                input.c,
                input.s@,
                star_count(input.s@) as int,
            )
            &&& rest.s@.len() == 0 || (starts_headline(rest.s@) && star_count(rest.s@) <= star_count(
                input.s@,
            ))
        },
    decreases input.s@.len(),
{
    let (cur, b) = match headline_head(input) {
        Some(x) => x,
        None => {
            return None;
        },
    };
    let ghost level = star_count(input.s@) as int;
    let ghost first = b.children@[0];
    proof {
        lemma_star_count_bound(input.s@);
    }
    let ghost b0 = b.children@;
    let ghost cur_head = cur.s@;
    let (rest, b, ended) = headline_line_end(cur, b, Ghost(level), Ghost(head_slots(input.c, input.s@)));
    let mut b = b;
    proof {
        assert(line_facts(b.children@, input.c, input.s@));
        let s = input.s@;
        let a1 = s.len() - rest.s@.len();
        let he = head_end(input.c, s);
        lemma_head_breaks(input.c, s);
        assert(cur_head == s.subrange(he, s.len() as int));
        assert(cur_head.len() == s.len() - he);
        assert(he <= a1);
        assert forall|i: int| 0 <= i < a1 - he implies #[trigger] cur_head.subrange(0, cur_head.len() - rest.s@.len())[i] == s.subrange(he, a1)[i] by {
            assert(cur_head[i] == s[he + i]);
        }
        assert(cur_head.subrange(0, cur_head.len() - rest.s@.len()) =~= s.subrange(he, a1));
        lemma_first_line_deeper(input.c, s, a1, level);
        assert(seq_text(b.children@).len() == a1);
        assert(head_slots(input.c, s) + line_slots(cur_head) == headline_line_slots(input.c, s));
    }
    let ghost pre = b.children@;
    let ghost m = pre.len() as int;
    if !ended {
        let e = b.finish(SyntaxKind::HEADLINE);
        proof {
            assert(elem_children(e)[0] == first);
            assert(headline_level(e) == level);
            assert(elem_children(e).subrange(0, m) =~= pre);
        }
        return Some((rest, e));
    }
    let (cur, b) = headline_blocks(input, rest, b, Ghost(level), Ghost(first), Ghost(m));
    let mut b = b;
    let mut cur = cur;
    let current_level = count_stars(input.s);
    let mut done = false;
    while !done && !cur.is_empty()
        invariant
            done ==> star_count(cur.s@) <= level,
            input.s@ == seq_text(b.children@) + cur.s@,
            cur.c == input.c,
            current_level == level == star_count(input.s@),
            level >= 1,
            cur.s@.len() < input.s@.len(),
            building_ok(level, first, b.children@),
            line_facts(b.children@, input.c, input.s@),
            is_token(first, SyntaxKind::HEADLINE_STARS, input.s@.subrange(0, level)),
            cur.s@.len() == 0 || starts_headline(cur.s@),
            deeper_within(input.s@, 0, seq_text(b.children@).len() as int, level),
            b.children@.len() >= m,
            b.children@.subrange(0, m) == pre,
            slots_match(pre, headline_line_slots(input.c, input.s@)),
            m == headline_line_slots(input.c, input.s@).len(),
            blocks_ok(b.children@, m, input.c, input.s@, level),
        decreases cur.s@.len(), (if done { 0int } else { 1int }),
    {
        let next_level = count_stars(cur.s);
        if next_level <= current_level {
            done = true;
        } else {
            match headline_node(cur) {
                Some((i, h)) => {
                    let ghost c1 = b.children@;
                    b.push(h);
                    proof {
                        lemma_building_step(level, first, c1, b.children@);
                        lemma_line_facts_step(c1, b.children@, input.c, input.s@);
                        let s = input.s@;
                        let a = seq_text(c1).len() as int;
                        let n = elem_text(h).len() as int;
                        assert(cur.s@ =~= s.subrange(a, s.len() as int));
                        lemma_child_piece(s, a, n, level);
                        assert(b.children@.subrange(0, m) =~= c1.subrange(0, m));
                        assert(crate::document::headline_shape(h, input.c, cur.s@));
                        assert(cur.s@.subrange(n, cur.s@.len() as int) =~= i.s@);
                        assert(star_count(cur.s@) > level);
                        assert(block_ok(h, input.c, cur.s@, level));
                        lemma_blocks_push(c1, m, input.c, s, level, h);
                        assert(b.children@ =~= c1.push(h));
                        lemma_deeper_join(s, 0, a, a + n, level);
                        lemma_seq_text_push(c1, h);
                    }
                    cur = i;
                },
                None => {
                    assert(false);
                },
            }
        }
    }
    let e = b.finish(SyntaxKind::HEADLINE);
    proof {
        assert(elem_children(e)[0] == first);
        assert(headline_level(e) == level);
    }
    Some((cur, e))
}

} // verus!
