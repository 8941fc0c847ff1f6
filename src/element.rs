use vstd::prelude::*;
use crate::combinator::{first_line_has_content, is_ascii_whitespace};
use crate::drawer::eq_ignore_case;
use crate::kind::SyntaxKind;
use crate::timestamp::{is_digit, no_newline};

verus! {

/// The kinds of the elements other than paragraphs.
pub open spec fn is_element_kind(k: SyntaxKind) -> bool {
    k == SyntaxKind::KEYWORD || k == SyntaxKind::CLOCK || k == SyntaxKind::FOOTNOTE_DEFINITION || k
        == SyntaxKind::LIST || k == SyntaxKind::TABLE || k == SyntaxKind::DRAWER || k
        == SyntaxKind::FIXED_WIDTH || k == SyntaxKind::RULE || k == SyntaxKind::COMMENT || k
        == SyntaxKind::CENTER_BLOCK || k == SyntaxKind::QUOTE_BLOCK || k == SyntaxKind::SRC_BLOCK
        || k == SyntaxKind::EXAMPLE_BLOCK || k == SyntaxKind::EXPORT_BLOCK || k
        == SyntaxKind::VERSE_BLOCK || k == SyntaxKind::COMMENT_BLOCK || k == SyntaxKind::SPECIAL_BLOCK
}

/// A character that may open an element other than a paragraph.
pub open spec fn opener_char(c: char) -> bool {
    c == '#' || crate::drawer::ascii_lower(c) == crate::drawer::ascii_lower('C')
        || crate::drawer::ascii_lower(c) == crate::drawer::ascii_lower('[') || c == '-' || c == '+'
        || c == '*' || is_digit(c) || c == '|' || c == ':'
}

/// Where the line that starts at `p` ends: after its `\n`, or at the end.
pub(crate) fn line_end_at(s: &[char], p: usize) -> (r: usize)
    requires
        p <= s@.len(),
    ensures
        p <= r <= s@.len(),
        p < s@.len() ==> p < r,
        r == s@.len() || s@[r - 1] == '\n',
        forall|k: int| p <= k < r - 1 ==> s@[k] != '\n',
{
    let mut j = p;
    while j < s.len() && s[j] != '\n'
        invariant
            p <= j <= s@.len(),
            forall|k: int| p <= k < j ==> s@[k] != '\n',
        decreases s@.len() - j,
    {
        j = j + 1;
    }
    if j < s.len() {
        j + 1
    } else {
        j
    }
}

/// The position of the first character of the line at `p` that is not a
/// space or a tab, before `e`.
fn skip_indent(s: &[char], p: usize, e: usize) -> (r: usize)
    requires
        p <= e <= s@.len(),
    ensures
        p <= r <= e,
        forall|k: int| p <= k < r ==> s@[k] == ' ' || s@[k] == '\t',
{
    let mut j = p;
    while j < e && (s[j] == ' ' || s[j] == '\t')
        invariant
            p <= j <= e <= s@.len(),
            forall|k: int| p <= k < j ==> s@[k] == ' ' || s@[k] == '\t',
        decreases e - j,
    {
        j = j + 1;
    }
    j
}

/// Whether `pat` occurs in `s` at `at`, in any ASCII case.
fn at_ignore_case(s: &[char], at: usize, pat: &[char]) -> (r: bool)
    requires
        at <= s@.len(),
    ensures
        r ==> pat@.len() <= s@.len() - at,
        r ==> crate::drawer::equals_ignore_case(s@.subrange(at as int, at + pat@.len()), pat@),
{
    pat.len() <= s.len() - at && eq_ignore_case(crate::input::slice_range(s, at, at + pat.len()), pat)
}

/// Whether the line `s[p..e]` (terminator included) has only whitespace.
fn is_blank_line(s: &[char], p: usize, e: usize) -> (r: bool)
    requires
        p <= e <= s@.len(),
    ensures
        r == forall|k: int| p <= k < e ==> crate::combinator::is_ascii_ws(#[trigger] s@[k]),
{
    let mut j = p;
    while j < e
        invariant
            p <= j <= e <= s@.len(),
            forall|k: int| p <= k < j ==> crate::combinator::is_ascii_ws(#[trigger] s@[k]),
        decreases e - j,
    {
        if !is_ascii_whitespace(s[j]) {
            return false;
        }
        j = j + 1;
    }
    true
}

/// The end of the line's content: before its trailing whitespace.
fn content_end(s: &[char], p: usize, e: usize) -> (r: usize)
    requires
        p <= e <= s@.len(),
    ensures
        p <= r <= e,
        forall|k: int| r <= k < e ==> crate::combinator::is_ascii_ws(#[trigger] s@[k]),
{
    let mut j = e;
    while j > p && is_ascii_whitespace(s[j - 1])
        invariant
            p <= j <= e <= s@.len(),
            forall|k: int| j <= k < e ==> crate::combinator::is_ascii_ws(#[trigger] s@[k]),
        decreases j,
    {
        j = j - 1;
    }
    j
}

/// The kind of element whose first line may start at `p`, or `None` for a
/// line of a paragraph (or a blank line).
pub(crate) fn line_kind(s: &[char], p: usize) -> (r: Option<SyntaxKind>)
    requires
        p <= s@.len(),
    ensures
        r matches Some(k) ==> is_element_kind(k),
        p < s@.len() && s@[p as int] == '<' ==> r is None,
        p < s@.len() && !crate::combinator::is_ascii_ws(s@[p as int]) && !opener_char(s@[p as int]) ==> r is None,
        crate::combinator::all_ws(s@.subrange(p as int, s@.len() as int)) ==> r is None,
        p + 1 < s@.len() && s@[p as int] == '[' && is_digit(s@[p + 1]) ==> r is None,
{
    let e = line_end_at(s, p);
    proof {
        if crate::combinator::all_ws(s@.subrange(p as int, s@.len() as int)) {
            assert forall|k: int| p <= k < e implies crate::combinator::is_ascii_ws(#[trigger] s@[k]) by {
                assert(s@.subrange(p as int, s@.len() as int)[k - p] == s@[k]);
            }
        }
    }
    if is_blank_line(s, p, e) {
        return None;
    }
    let i = skip_indent(s, p, e);
    let ce = content_end(s, i, e);
    if i >= ce {
        return None;
    }
    let c = s[i];
    if c == '#' {
        if at_ignore_case(s, i, &['#', '+', 'B', 'E', 'G', 'I', 'N', '_']) {
            return Some(SyntaxKind::SPECIAL_BLOCK);
        }
        if i + 1 < ce && s[i + 1] == '+' {
            let mut k = i + 2;
            while k < ce && s[k] != ':' && !is_ascii_whitespace(s[k])
                invariant
                    i + 2 <= k <= ce <= s@.len(),
                decreases ce - k,
            {
                k = k + 1;
            }
            if k < ce && s[k] == ':' && k > i + 2 {
                return Some(SyntaxKind::KEYWORD);
            }
            return None;
        }
        if i + 1 == ce || s[i + 1] == ' ' || s[i + 1] == '\t' {
            return Some(SyntaxKind::COMMENT);
        }
        return None;
    }
    let clock = at_ignore_case(s, i, &['C', 'L', 'O', 'C', 'K', ':']);
    proof {
        if clock {
            assert(s@.subrange(i as int, i + 6)[0] == s@[i as int]);
        }
    }
    if clock {
        return Some(SyntaxKind::CLOCK);
    }
    let footnote = i == p && at_ignore_case(s, i, &['[', 'F', 'N', ':']);
    proof {
        if footnote {
            assert(s@.subrange(i as int, i + 4)[0] == s@[i as int]);
            assert(s@.subrange(i as int, i + 4)[1] == s@[i + 1]);
        }
    }
    if footnote {
        return Some(SyntaxKind::FOOTNOTE_DEFINITION);
    }
    if (c == '-' || c == '+' || (c == '*' && i > p)) && (i + 1 == ce || s[i + 1] == ' ' || s[i + 1] == '\t') {
        return Some(SyntaxKind::LIST);
    }
    if '0' <= c && c <= '9' {
        let mut k = i;
        while k < ce && '0' <= s[k] && s[k] <= '9'
            invariant
                i <= k <= ce <= s@.len(),
            decreases ce - k,
        {
            k = k + 1;
        }
        if k < ce && (s[k] == '.' || s[k] == ')') && (k + 1 == ce || s[k + 1] == ' ' || s[k + 1] == '\t') {
            return Some(SyntaxKind::LIST);
        }
        return None;
    }
    if c == '|' {
        return Some(SyntaxKind::TABLE);
    }
    if c == ':' {
        if i + 1 == ce || s[i + 1] == ' ' || s[i + 1] == '\t' {
            return Some(SyntaxKind::FIXED_WIDTH);
        }
        if ce - i >= 3 && s[ce - 1] == ':' {
            return Some(SyntaxKind::DRAWER);
        }
        return None;
    }
    if c == '-' || ce - i >= 5 {
        let mut k = i;
        while k < ce && s[k] == '-'
            invariant
                i <= k <= ce <= s@.len(),
                forall|m: int| i <= m < k ==> s@[m] == '-',
            decreases ce - k,
        {
            k = k + 1;
        }
        if k == ce && ce - i >= 5 {
            return Some(SyntaxKind::RULE);
        }
    }
    None
}

/// Whether the line at `p` is `[ws]:END:` in any case.
fn is_end_line(s: &[char], p: usize) -> bool
    requires
        p <= s@.len(),
{
    let e = line_end_at(s, p);
    let i = skip_indent(s, p, e);
    let ce = content_end(s, i, e);
    ce - i == 5 && at_ignore_case(s, i, &[':', 'E', 'N', 'D', ':'])
}

/// The block name that follows `#+BEGIN_` on the line at `p`: its start and end.
fn block_name(s: &[char], p: usize) -> (r: (usize, usize))
    requires
        p <= s@.len(),
    ensures
        r.0 <= r.1 <= s@.len(),
{
    let i = skip_indent(s, p, s.len());
    let start = if s.len() - i >= 8 { i + 8 } else { s.len() };
    let mut k = start;
    while k < s.len() && !is_ascii_whitespace(s[k])
        invariant
            start <= k <= s@.len(),
        decreases s@.len() - k,
    {
        k = k + 1;
    }
    (start, k)
}

/// Whether the line at `p` is `[ws]#+END_NAME` for the name `s[a..b]`, in any case.
fn is_block_end(s: &[char], p: usize, a: usize, b: usize) -> bool
    requires
        p <= s@.len(),
        a <= b <= s@.len(),
{
    let e = line_end_at(s, p);
    let i = skip_indent(s, p, e);
    if s.len() - i < 6 || !at_ignore_case(s, i, &['#', '+', 'E', 'N', 'D', '_']) {
        return false;
    }
    let n = b - a;
    let j = i + 6;
    if n > s.len() - j {
        return false;
    }
    let name = crate::input::slice_range(s, a, b);
    if !eq_ignore_case(crate::input::slice_range(s, j, j + n), name) {
        return false;
    }
    if j + n > e {
        return false;
    }
    let ce = content_end(s, j + n, e);
    ce == j + n
}

/// The kind of a block by its name.
fn block_kind(s: &[char], a: usize, b: usize) -> (r: SyntaxKind)
    requires
        a <= b <= s@.len(),
    ensures
        is_element_kind(r),
{
    let name = crate::input::slice_range(s, a, b);
    if eq_ignore_case(name, &['C', 'E', 'N', 'T', 'E', 'R']) {
        SyntaxKind::CENTER_BLOCK
    } else if eq_ignore_case(name, &['Q', 'U', 'O', 'T', 'E']) {
        SyntaxKind::QUOTE_BLOCK
    } else if eq_ignore_case(name, &['S', 'R', 'C']) {
        SyntaxKind::SRC_BLOCK
    } else if eq_ignore_case(name, &['E', 'X', 'A', 'M', 'P', 'L', 'E']) {
        SyntaxKind::EXAMPLE_BLOCK
    } else if eq_ignore_case(name, &['E', 'X', 'P', 'O', 'R', 'T']) {
        SyntaxKind::EXPORT_BLOCK
    } else if eq_ignore_case(name, &['V', 'E', 'R', 'S', 'E']) {
        SyntaxKind::VERSE_BLOCK
    } else if eq_ignore_case(name, &['C', 'O', 'M', 'M', 'E', 'N', 'T']) {
        SyntaxKind::COMMENT_BLOCK
    } else {
        SyntaxKind::SPECIAL_BLOCK
    }
}

/// The element at the start of `s` other than a paragraph: its kind and the
/// length of its lines (trailing blank lines not included). A block or a
/// drawer without its closing line is none.
pub(crate) fn element_extent(s: &[char]) -> (r: Option<(SyntaxKind, usize)>)
    ensures
        r matches Some((k, n)) ==> 0 < n <= s@.len() && is_element_kind(k),
        s@.len() > 0 && s@[0] == '<' ==> r is None,
        s@.len() > 0 && !crate::combinator::is_ascii_ws(s@[0]) && !opener_char(s@[0]) ==> r is None,
        crate::combinator::all_ws(s@) ==> r is None,
        s@.len() > 1 && s@[0] == '[' && is_digit(s@[1]) ==> r is None,
{
    if s.len() == 0 {
        return None;
    }
    let kind = match line_kind(s, 0) {
        Some(k) => k,
        None => {
            return None;
        },
    };
    let first_end = line_end_at(s, 0);
    proof {
        if crate::combinator::all_ws(s@) {
            assert(s@.subrange(0, s@.len() as int) =~= s@);
        }
    }
    let ghost plain = !(s@[0] == '<') && !(s@.len() > 1 && s@[0] == '[' && is_digit(s@[1]))
        && !(!crate::combinator::is_ascii_ws(s@[0]) && !opener_char(s@[0])) && !crate::combinator::all_ws(s@);
    assert(plain);
    if kind == SyntaxKind::SPECIAL_BLOCK {
        let (a, b) = block_name(s, 0);
        if a == b {
            return None;
        }
        let mut p = first_end;
        while p < s.len()
            invariant
                0 < first_end <= p <= s@.len(),
                a <= b <= s@.len(),
                plain,
                plain == (!(s@[0] == '<') && !(s@.len() > 1 && s@[0] == '[' && is_digit(s@[1]))
                    && !(!crate::combinator::is_ascii_ws(s@[0]) && !opener_char(s@[0])) && !crate::combinator::all_ws(s@)),
            decreases s@.len() - p,
        {
            let e = line_end_at(s, p);
            if is_block_end(s, p, a, b) {
                return Some((block_kind(s, a, b), e));
            }
            p = e;
        }
        return None;
    }
    if kind == SyntaxKind::DRAWER {
        let mut p = first_end;
        while p < s.len()
            invariant
                0 < first_end <= p <= s@.len(),
                plain,
                plain == (!(s@[0] == '<') && !(s@.len() > 1 && s@[0] == '[' && is_digit(s@[1]))
                    && !(!crate::combinator::is_ascii_ws(s@[0]) && !opener_char(s@[0])) && !crate::combinator::all_ws(s@)),
            decreases s@.len() - p,
        {
            let e = line_end_at(s, p);
            if is_end_line(s, p) {
                return Some((SyntaxKind::DRAWER, e));
            }
            p = e;
        }
        return None;
    }
    if kind == SyntaxKind::KEYWORD || kind == SyntaxKind::CLOCK || kind == SyntaxKind::RULE
        || kind == SyntaxKind::FOOTNOTE_DEFINITION {
        return Some((kind, first_end));
    }
    // runs of lines of the same kind; a list also takes its indented lines
    let mut p = first_end;
    while p < s.len()
        invariant
            0 < first_end <= p <= s@.len(),
            is_element_kind(kind),
        decreases s@.len() - p,
    {
        let e = line_end_at(s, p);
        let same = match line_kind(s, p) {
            Some(k) => k == kind,
            None => kind == SyntaxKind::LIST && !is_blank_line(s, p, e) && skip_indent(s, p, e) > p,
        };
        if !same {
            break;
        }
        p = e;
    }
    Some((kind, p))
}

/// The length of the paragraph at the start of `s`: its first line, if it
/// has content, and the lines with content after it that open no other element.
pub(crate) fn paragraph_extent(s: &[char]) -> (r: usize)
    ensures
        r <= s@.len(),
        r == 0 ==> s@.len() == 0 || !first_line_has_content(s@),
        s@.len() > 0 && !crate::combinator::is_ascii_ws(s@[0]) && no_newline(s@, 0, s@.len() as int)
            ==> r == s@.len(),
        s@.len() > 0 && !crate::combinator::is_ascii_ws(s@[0]) && no_newline(s@, 0, s@.len() - 1)
            ==> r == s@.len(),
        crate::combinator::all_ws(s@) ==> r == 0,
{
    if s.len() == 0 {
        return 0;
    }
    let first_end = line_end_at(s, 0);
    if is_blank_line(s, 0, first_end) {
        proof {
            if first_line_has_content(s@) {
                let j = choose|j: int|
                    0 <= j < s@.len() && !crate::combinator::is_ascii_ws(#[trigger] s@[j])
                        && forall|k: int| 0 <= k < j ==> #[trigger] s@[k] != '\n' && s@[k] != '\r';
                if j >= first_end {
                    assert(s@[first_end - 1] == '\n');
                }
            }
        }
        return 0;
    }
    let mut p = first_end;
    while p < s.len()
        invariant
            0 < first_end <= p <= s@.len(),
        decreases s@.len() - p,
    {
        let e = line_end_at(s, p);
        if is_blank_line(s, p, e) || line_kind(s, p).is_some() {
            break;
        }
        p = e;
    }
    p
}

} // verus!
