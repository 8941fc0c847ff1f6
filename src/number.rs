use vstd::prelude::*;

verus! {

pub open spec fn is_digit_char(c: char) -> bool {
    '0' <= c && c <= '9'
}

pub open spec fn all_digits(s: Seq<char>) -> bool {
    forall|i: int| 0 <= i < s.len() ==> is_digit_char(#[trigger] s[i])
}

/// The value of a run of decimal digits.
pub open spec fn digits_value(s: Seq<char>) -> nat
    decreases s.len(),
{
    if s.len() == 0 {
        0
    } else {
        digits_value(s.drop_last()) * 10 + ((s.last() as u32) - ('0' as u32)) as nat
    }
}

/// The digits of a decimal numeral after its optional sign.
pub open spec fn unsigned_part(s: Seq<char>) -> Seq<char> {
    if s.len() > 0 && (s[0] == '+' || s[0] == '-') {
        s.drop_first()
    } else {
        s
    }
}

/// What `str::parse::<u32>` gives: an optional `+`, then one or more digits
/// whose value fits.
pub open spec fn u32_of(s: Seq<char>) -> Option<u32> {
    let d = unsigned_part(s);
    if s.len() > 0 && s[0] == '-' {
        None
    } else if d.len() > 0 && all_digits(d) && digits_value(d) <= u32::MAX {
        Some(digits_value(d) as u32)
    } else {
        None
    }
}

/// What `str::parse::<i32>` gives: an optional `+` or `-`, then one or more
/// digits whose signed value fits.
pub open spec fn i32_of(s: Seq<char>) -> Option<i32> {
    let d = unsigned_part(s);
    let neg = s.len() > 0 && s[0] == '-';
    if !(d.len() > 0 && all_digits(d)) {
        None
    } else if neg && digits_value(d) <= 2147483648 {
        Some((0 - digits_value(d)) as i32)
    } else if !neg && digits_value(d) <= 2147483647 {
        Some(digits_value(d) as i32)
    } else {
        None
    }
}

proof fn lemma_digits_value_mono(s: Seq<char>, i: int)
    requires
        0 <= i <= s.len(),
        all_digits(s),
    ensures
        digits_value(s.subrange(0, i)) <= digits_value(s),
    decreases s.len() - i,
{
    if i < s.len() {
        lemma_digits_value_mono(s, i + 1);
        assert(s.subrange(0, i + 1).drop_last() =~= s.subrange(0, i));
    } else {
        assert(s.subrange(0, i) =~= s);
    }
}

/// The value of the digits of `d`, where they are all digits, there is at
/// least one, and the value is at most `u32::MAX`.
fn parse_digits(d: &[char]) -> (r: Option<u64>)
    ensures
        match r {
            Some(v) => d@.len() > 0 && all_digits(d@) && v == digits_value(d@) && v <= u32::MAX,
            None => !(d@.len() > 0 && all_digits(d@) && digits_value(d@) <= u32::MAX),
        },
{
    if d.len() == 0 {
        return None;
    }
    let mut v: u64 = 0;
    let mut i: usize = 0;
    while i < d.len()
        invariant
            i <= d@.len(),
            all_digits(d@.subrange(0, i as int)),
            v == digits_value(d@.subrange(0, i as int)),
            v <= u32::MAX,
        decreases d@.len() - i,
    {
        let c = d[i];
        if !('0' <= c && c <= '9') {
            assert(!is_digit_char(d@[i as int]));
            return None;
        }
        let digit = (c as u32 - '0' as u32) as u64;
        assert(d@.subrange(0, i + 1).drop_last() =~= d@.subrange(0, i as int));
        if v > (4294967295u64 - digit) / 10 {
            proof {
                assert(v * 10 + digit > 4294967295) by (nonlinear_arith)
                    requires
                        v > (4294967295 - digit) / 10,
                        digit <= 9,
                ;
                if all_digits(d@) {
                    lemma_digits_value_mono(d@, i + 1);
                }
            }
            return None;
        }
        assert(v * 10 + digit <= 4294967295) by (nonlinear_arith)
            requires
                v <= (4294967295 - digit) / 10,
                digit <= 9,
        ;
        v = v * 10 + digit;
        i = i + 1;
    }
    assert(d@.subrange(0, i as int) =~= d@);
    Some(v)
}

/// `str::parse::<u32>` on the characters of `s`.
pub fn parse_u32(s: &[char]) -> (r: Option<u32>)
    ensures
        r == u32_of(s@),
{
    if s.len() > 0 && s[0] == '-' {
        return None;
    }
    let d = if s.len() > 0 && s[0] == '+' {
        crate::input::slice_range(s, 1, s.len())
    } else {
        s
    };
    assert(d@ == unsigned_part(s@)) by {
        if s@.len() > 0 && s@[0] == '+' {
            assert(d@ =~= s@.drop_first());
        }
    }
    match parse_digits(d) {
        Some(v) => Some(v as u32),
        None => None,
    }
}

/// `str::parse::<i32>` on the characters of `s`.
pub fn parse_i32(s: &[char]) -> (r: Option<i32>)
    ensures
        r == i32_of(s@),
{
    let neg = s.len() > 0 && s[0] == '-';
    let d = if s.len() > 0 && (s[0] == '+' || s[0] == '-') {
        crate::input::slice_range(s, 1, s.len())
    } else {
        s
    };
    assert(d@ == unsigned_part(s@)) by {
        if s@.len() > 0 && (s@[0] == '+' || s@[0] == '-') {
            assert(d@ =~= s@.drop_first());
        }
    }
    match parse_digits(d) {
        Some(v) => {
            if neg && v <= 2147483648 {
                Some((0 - (v as i64)) as i32)
            } else if !neg && v <= 2147483647 {
                Some(v as i32)
            } else {
                None
            }
        },
        None => None,
    }
}

} // verus!
