use vstd::prelude::*;
use crate::ast::{
    child_token, count_kind_upto, first_token, first_token_index_from, last_token,
    last_token_upto, token_index,
};
use crate::datetime::{DateTime, valid_date_time};
use crate::kind::SyntaxKind;
use crate::number::{i32_of, parse_i32, parse_u32, u32_of};
use crate::text::chars_of;
use crate::timestamp::is_timestamp_kind;
use crate::tree::{GreenElement, GreenNode, GreenToken, seq_text};

verus! {

#[derive(Clone, Copy, Debug, PartialEq, Eq, Structural)]
pub enum TimeUnit {
    Hour,
    Day,
    Week,
    Month,
    Year,
}

#[derive(Clone, Copy, Debug, PartialEq, Eq, Structural)]
pub enum RepeaterType {
    Cumulate,
    CatchUp,
    Restart,
}

#[derive(Clone, Copy, Debug, PartialEq, Eq, Structural)]
pub enum DelayType {
    All,
    First,
}

/// The unit a `TIMESTAMP_UNIT` text names.
pub open spec fn unit_of(s: Seq<char>) -> Option<TimeUnit> {
    if s == seq!['h'] {
        Some(TimeUnit::Hour)
    } else if s == seq!['d'] {
        Some(TimeUnit::Day)
    } else if s == seq!['w'] {
        Some(TimeUnit::Week)
    } else if s == seq!['m'] {
        Some(TimeUnit::Month)
    } else if s == seq!['y'] {
        Some(TimeUnit::Year)
    } else {
        None
    }
}

/// The repeater a mark names: `+` cumulates, `++` catches up, `.+` restarts.
pub open spec fn repeater_of(s: Seq<char>) -> Option<RepeaterType> {
    if s == seq!['+'] {
        Some(RepeaterType::Cumulate)
    } else if s == seq!['+', '+'] {
        Some(RepeaterType::CatchUp)
    } else if s == seq!['.', '+'] {
        Some(RepeaterType::Restart)
    } else {
        None
    }
}

/// The delay a mark names: `-` delays every occurrence, `--` the first only.
pub open spec fn delay_of(s: Seq<char>) -> Option<DelayType> {
    if s == seq!['-'] {
        Some(DelayType::All)
    } else if s == seq!['-', '-'] {
        Some(DelayType::First)
    } else {
        None
    }
}

/// The child `offset` places after the first token of kind `mark`, where it is a token.
pub open spec fn token_after(cs: Seq<GreenElement>, mark: SyntaxKind, offset: int) -> Option<GreenToken> {
    let i = first_token_index_from(cs, mark, 0) + offset;
    if i < cs.len() {
        match cs[i] {
            GreenElement::Token(t) => Some(t),
            GreenElement::Node(_) => None,
        }
    } else {
        None
    }
}

pub open spec fn value_after(cs: Seq<GreenElement>, mark: SyntaxKind) -> Option<u32> {
    match token_after(cs, mark, 1) {
        Some(t) => u32_of(t.text@),
        None => None,
    }
}

pub open spec fn unit_after(cs: Seq<GreenElement>, mark: SyntaxKind) -> Option<TimeUnit> {
    match token_after(cs, mark, 2) {
        Some(t) => unit_of(t.text@),
        None => None,
    }
}

/// The date and time that five optional tokens spell, where each parses
/// and together they name an existing minute.
pub open spec fn date_time_of(
    y: Option<GreenToken>,
    mo: Option<GreenToken>,
    d: Option<GreenToken>,
    h: Option<GreenToken>,
    mi: Option<GreenToken>,
) -> Option<DateTime> {
    if y is Some && mo is Some && d is Some && h is Some && mi is Some {
        let (yv, mov, dv, hv, miv) = (
            i32_of(y->0.text@),
            u32_of(mo->0.text@),
            u32_of(d->0.text@),
            u32_of(h->0.text@),
            u32_of(mi->0.text@),
        );
        if yv is Some && mov is Some && dv is Some && hv is Some && miv is Some && valid_date_time(
            yv->0 as int,
            mov->0 as int,
            dv->0 as int,
            hv->0 as int,
            miv->0 as int,
        ) {
            Some(
                DateTime {
                    year: yv->0,
                    month: mov->0,
                    day: dv->0,
                    hour: hv->0,
                    minute: miv->0,
                },
            )
        } else {
            None
        }
    } else {
        None
    }
}

pub open spec fn last_token_of(n: GreenNode, k: SyntaxKind) -> Option<GreenToken> {
    last_token_upto(n.children@, k, n.children@.len() as int)
}

/// A timestamp node: active, inactive or diary.
pub struct Timestamp<'a> {
    pub syntax: &'a GreenNode,
}

fn unit_from(t: &GreenToken) -> (r: Option<TimeUnit>)
    ensures
        r == unit_of(t.text@),
{
    let s = chars_of(t.text());
    if s.len() != 1 {
        proof {
            assert(s@.len() != 1);
        }
        return None;
    }
    let c = s[0];
    proof {
        assert(s@ =~= seq![c]);
    }
    if c == 'h' {
        Some(TimeUnit::Hour)
    } else if c == 'd' {
        Some(TimeUnit::Day)
    } else if c == 'w' {
        Some(TimeUnit::Week)
    } else if c == 'm' {
        Some(TimeUnit::Month)
    } else if c == 'y' {
        Some(TimeUnit::Year)
    } else {
        proof {
            assert(s@ != seq!['h'] && s@ != seq!['d'] && s@ != seq!['w'] && s@ != seq!['m'] && s@
                != seq!['y']) by {
                if s@ == seq!['h'] { assert(s@[0] == 'h'); }
                if s@ == seq!['d'] { assert(s@[0] == 'd'); }
                if s@ == seq!['w'] { assert(s@[0] == 'w'); }
                if s@ == seq!['m'] { assert(s@[0] == 'm'); }
                if s@ == seq!['y'] { assert(s@[0] == 'y'); }
            }
        }
        None
    }
}

/// The token `offset` places after the first token of kind `mark` among the
/// children of `n`.
fn token_after_mark<'a>(n: &'a GreenNode, mark: SyntaxKind, offset: usize) -> (r: Option<&'a GreenToken>)
    requires
        offset <= 2,
    ensures
        match r {
            Some(t) => token_after(n.children@, mark, offset as int) == Some(*t),
            None => token_after(n.children@, mark, offset as int) is None,
        },
{
    let i = token_index(n, mark);
    if i >= n.children.len() || n.children.len() - i <= offset {
        return None;
    }
    match &n.children[i + offset] {
        GreenElement::Token(t) => Some(t),
        GreenElement::Node(_) => None,
    }
}

impl<'a> Timestamp<'a> {
    pub fn cast(node: &'a GreenNode) -> (r: Option<Timestamp<'a>>)
        ensures
            r is Some <==> is_timestamp_kind(node.kind),
            r matches Some(t) ==> t.syntax == node,
    {
        if node.kind == SyntaxKind::TIMESTAMP_ACTIVE || node.kind == SyntaxKind::TIMESTAMP_INACTIVE
            || node.kind == SyntaxKind::TIMESTAMP_DIARY {
            Some(Timestamp { syntax: node })
        } else {
            None
        }
    }

    pub fn is_active(&self) -> (r: bool)
        ensures
            r == (self.syntax.kind == SyntaxKind::TIMESTAMP_ACTIVE),
    {
        self.syntax.kind == SyntaxKind::TIMESTAMP_ACTIVE
    }

    pub fn is_inactive(&self) -> (r: bool)
        ensures
            r == (self.syntax.kind == SyntaxKind::TIMESTAMP_INACTIVE),
    {
        self.syntax.kind == SyntaxKind::TIMESTAMP_INACTIVE
    }

    pub fn is_diary(&self) -> (r: bool)
        ensures
            r == (self.syntax.kind == SyntaxKind::TIMESTAMP_DIARY),
    {
        self.syntax.kind == SyntaxKind::TIMESTAMP_DIARY
    }

    /// Whether this timestamp is a range: more than two `MINUS` tokens, as a
    /// time range or a date range adds to the two of a date.
    pub fn is_range(&self) -> (r: bool)
        ensures
            r == (count_kind_upto(
                self.syntax.children@,
                SyntaxKind::MINUS,
                self.syntax.children@.len() as int,
            ) > 2),
    {
        let cs = &self.syntax.children;
        let mut n: usize = 0;
        let mut i: usize = 0;
        while i < cs.len()
            invariant
                cs@ == self.syntax.children@,
                i <= cs@.len(),
                n == count_kind_upto(cs@, SyntaxKind::MINUS, i as int),
                n <= i,
            decreases cs@.len() - i,
        {
            if cs[i].kind() == SyntaxKind::MINUS {
                n = n + 1;
            }
            i = i + 1;
        }
        n > 2
    }

    pub fn repeater_type(&self) -> (r: Option<RepeaterType>)
        ensures
            match first_token(*self.syntax, SyntaxKind::TIMESTAMP_REPEATER_MARK) {
                Some(t) => r is Some && (repeater_of(t.text@) is Some ==> r == repeater_of(t.text@)),
                None => r is None,
            },
    {
        match child_token(self.syntax, SyntaxKind::TIMESTAMP_REPEATER_MARK) {
            None => None,
            Some(t) => {
                let s = chars_of(t.text());
                if s.len() == 1 && s[0] == '+' {
                    assert(s@ =~= seq!['+']);
                    Some(RepeaterType::Cumulate)
                } else if s.len() == 2 && s[0] == '.' && s[1] == '+' {
                    assert(s@ =~= seq!['.', '+']);
                    Some(RepeaterType::Restart)
                } else {
                    proof {
                        if s@ == seq!['+'] { assert(s@[0] == '+'); }
                        if s@ == seq!['.', '+'] { assert(s@[0] == '.' && s@[1] == '+'); }
                    }
                    Some(RepeaterType::CatchUp)
                }
            },
        }
    }

    pub fn repeater_value(&self) -> (r: Option<u32>)
        ensures
            r == value_after(self.syntax.children@, SyntaxKind::TIMESTAMP_REPEATER_MARK),
    {
        match token_after_mark(self.syntax, SyntaxKind::TIMESTAMP_REPEATER_MARK, 1) {
            Some(t) => parse_u32(chars_of(t.text()).as_slice()),
            None => None,
        }
    }

    pub fn repeater_unit(&self) -> (r: Option<TimeUnit>)
        ensures
            r == unit_after(self.syntax.children@, SyntaxKind::TIMESTAMP_REPEATER_MARK),
    {
        match token_after_mark(self.syntax, SyntaxKind::TIMESTAMP_REPEATER_MARK, 2) {
            Some(t) => unit_from(t),
            None => None,
        }
    }

    pub fn warning_type(&self) -> (r: Option<DelayType>)
        ensures
            match first_token(*self.syntax, SyntaxKind::TIMESTAMP_DELAY_MARK) {
                Some(t) => r is Some && (delay_of(t.text@) is Some ==> r == delay_of(t.text@)),
                None => r is None,
            },
    {
        match child_token(self.syntax, SyntaxKind::TIMESTAMP_DELAY_MARK) {
            None => None,
            Some(t) => {
                let s = chars_of(t.text());
                if s.len() == 2 && s[0] == '-' && s[1] == '-' {
                    assert(s@ =~= seq!['-', '-']);
                    Some(DelayType::First)
                } else {
                    proof {
                        if s@ == seq!['-', '-'] { assert(s@[0] == '-' && s@[1] == '-'); }
                    }
                    Some(DelayType::All)
                }
            },
        }
    }

    pub fn warning_value(&self) -> (r: Option<u32>)
        ensures
            r == value_after(self.syntax.children@, SyntaxKind::TIMESTAMP_DELAY_MARK),
    {
        match token_after_mark(self.syntax, SyntaxKind::TIMESTAMP_DELAY_MARK, 1) {
            Some(t) => parse_u32(chars_of(t.text()).as_slice()),
            None => None,
        }
    }

    pub fn warning_unit(&self) -> (r: Option<TimeUnit>)
        ensures
            r == unit_after(self.syntax.children@, SyntaxKind::TIMESTAMP_DELAY_MARK),
    {
        match token_after_mark(self.syntax, SyntaxKind::TIMESTAMP_DELAY_MARK, 2) {
            Some(t) => unit_from(t),
            None => None,
        }
    }

    /// The start of this timestamp: its first year, month, day, hour and minute.
    pub fn start_to_chrono(&self) -> (r: Option<DateTime>)
        ensures
            r == date_time_of(
                first_token(*self.syntax, SyntaxKind::TIMESTAMP_YEAR),
                first_token(*self.syntax, SyntaxKind::TIMESTAMP_MONTH),
                first_token(*self.syntax, SyntaxKind::TIMESTAMP_DAY),
                first_token(*self.syntax, SyntaxKind::TIMESTAMP_HOUR),
                first_token(*self.syntax, SyntaxKind::TIMESTAMP_MINUTE),
            ),
    {
        let n = self.syntax;
        date_time_from(
            child_token(n, SyntaxKind::TIMESTAMP_YEAR),
            child_token(n, SyntaxKind::TIMESTAMP_MONTH),
            child_token(n, SyntaxKind::TIMESTAMP_DAY),
            child_token(n, SyntaxKind::TIMESTAMP_HOUR),
            child_token(n, SyntaxKind::TIMESTAMP_MINUTE),
        )
    }

    /// The end of this timestamp: its last year, month, day, hour and minute.
    pub fn end_to_chrono(&self) -> (r: Option<DateTime>)
        ensures
            r == date_time_of(
                last_token_of(*self.syntax, SyntaxKind::TIMESTAMP_YEAR),
                last_token_of(*self.syntax, SyntaxKind::TIMESTAMP_MONTH),
                last_token_of(*self.syntax, SyntaxKind::TIMESTAMP_DAY),
                last_token_of(*self.syntax, SyntaxKind::TIMESTAMP_HOUR),
                last_token_of(*self.syntax, SyntaxKind::TIMESTAMP_MINUTE),
            ),
    {
        let n = self.syntax;
        date_time_from(
            last_token(n, SyntaxKind::TIMESTAMP_YEAR),
            last_token(n, SyntaxKind::TIMESTAMP_MONTH),
            last_token(n, SyntaxKind::TIMESTAMP_DAY),
            last_token(n, SyntaxKind::TIMESTAMP_HOUR),
            last_token(n, SyntaxKind::TIMESTAMP_MINUTE),
        )
    }

    /// The text of the timestamp.
    pub fn to_source(&self) -> (r: String)
        ensures
            r@ == seq_text(self.syntax.children@),
    {
        self.syntax.to_source()
    }
}

pub open spec fn deref_opt(o: Option<&GreenToken>) -> Option<GreenToken> {
    match o {
        Some(t) => Some(*t),
        None => None,
    }
}

fn date_time_from(
    y: Option<&GreenToken>,
    mo: Option<&GreenToken>,
    d: Option<&GreenToken>,
    h: Option<&GreenToken>,
    mi: Option<&GreenToken>,
) -> (r: Option<DateTime>)
    ensures
        r == date_time_of(deref_opt(y), deref_opt(mo), deref_opt(d), deref_opt(h), deref_opt(mi)),
{
    match (y, mo, d, h, mi) {
        (Some(y), Some(mo), Some(d), Some(h), Some(mi)) => {
            let yv = parse_i32(chars_of(y.text()).as_slice());
            let mov = parse_u32(chars_of(mo.text()).as_slice());
            let dv = parse_u32(chars_of(d.text()).as_slice());
            let hv = parse_u32(chars_of(h.text()).as_slice());
            let miv = parse_u32(chars_of(mi.text()).as_slice());
            match (yv, mov, dv, hv, miv) {
                (Some(a), Some(b), Some(c), Some(e), Some(f)) => DateTime::new(a, b, c, e, f),
                _ => None,
            }
        },
        _ => None,
    }
}

} // verus!
