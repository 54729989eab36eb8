use vstd::prelude::*;

use crate::text::{chars_of, push_char};

verus! {

pub open spec fn is_digit(c: char) -> bool {
    '0' <= c && c <= '9'
}

/// The value of a decimal digit.
pub open spec fn digit_value(c: char) -> int {
    (c as u32) as int - ('0' as u32) as int
}

/// The value of a run of decimal digits; 0 for none.
pub open spec fn digits_value(s: Seq<char>) -> int
    decreases s.len(),
{
    if s.len() == 0 {
        0
    } else {
        digits_value(s.drop_last()) * 10 + digit_value(s.last())
    }
}

pub open spec fn all_digits(s: Seq<char>) -> bool {
    forall|i: int| 0 <= i < s.len() ==> is_digit(#[trigger] s[i])
}

/// `s` without one leading `+`.
pub open spec fn unsigned_part(s: Seq<char>) -> Seq<char> {
    if s.len() > 0 && s[0] == '+' {
        s.drop_first()
    } else {
        s
    }
}

/// A decimal number read as a `u32`: digits after an optional `+`, within range.
pub open spec fn u32_of(s: Seq<char>) -> Option<u32> {
    let d = unsigned_part(s);
    if d.len() > 0 && all_digits(d) && digits_value(d) <= u32::MAX {
        Some(digits_value(d) as u32)
    } else {
        None
    }
}

/// A decimal number read as an `i32`: digits after an optional `+` or `-`, within range.
pub open spec fn i32_of(s: Seq<char>) -> Option<i32> {
    if s.len() > 0 && s[0] == '-' {
        let d = s.drop_first();
        if d.len() > 0 && all_digits(d) && digits_value(d) <= 0x8000_0000 {
            Some((-digits_value(d)) as i32)
        } else {
            None
        }
    } else {
        let d = unsigned_part(s);
        if d.len() > 0 && all_digits(d) && digits_value(d) <= i32::MAX {
            Some(digits_value(d) as i32)
        } else {
            None
        }
    }
}

proof fn lemma_digits_nonneg(s: Seq<char>)
    requires
        all_digits(s),
    ensures
        digits_value(s) >= 0,
    decreases s.len(),
{
    if s.len() > 0 {
        assert(all_digits(s.drop_last())) by {
            assert forall|i: int| 0 <= i < s.drop_last().len() implies is_digit(
                #[trigger] s.drop_last()[i],
            ) by {
                assert(s.drop_last()[i] == s[i]);
            }
        }
        lemma_digits_nonneg(s.drop_last());
        assert(is_digit(s[s.len() - 1]));
    }
}

/// The value of the digits `s[from..]`, where it does not pass `limit`.
fn digits_up_to(s: &[char], from: usize, limit: u64) -> (r: Option<u64>)
    requires
        from <= s@.len(),
        limit <= u32::MAX + 1,
    ensures
        ({
            let d = s@.subrange(from as int, s@.len() as int);
            match r {
                Some(v) => d.len() > 0 && all_digits(d) && v == digits_value(d) && v <= limit,
                None => !(d.len() > 0 && all_digits(d) && digits_value(d) <= limit),
            }
        }),
{
    let ghost d = s@.subrange(from as int, s@.len() as int);
    if from == s.len() {
        return None;
    }
    let mut v: u64 = 0;
    let mut i: usize = from;
    while i < s.len()
        invariant
            from <= i <= s@.len(),
            limit <= u32::MAX + 1,
            d == s@.subrange(from as int, s@.len() as int),
            all_digits(s@.subrange(from as int, i as int)),
            v == digits_value(s@.subrange(from as int, i as int)),
            v <= limit,
        decreases s@.len() - i,
    {
        let c = s[i];
        let ghost pre = s@.subrange(from as int, i as int);
        let ghost next = s@.subrange(from as int, i + 1);
        proof {
            assert(next.drop_last() =~= pre);
            assert(next.last() == c);
        }
        if !('0' <= c && c <= '9') {
            proof {
                assert(d[i - from] == c);
            }
            return None;
        }
        let digit = (c as u32 - '0' as u32) as u64;
        let w = v * 10 + digit;
        if w > limit {
            proof {
                assert(all_digits(next)) by {
                    assert forall|k: int| 0 <= k < next.len() implies is_digit(#[trigger] next[k]) by {
                        if k < pre.len() {
                            assert(next[k] == pre[k]);
                        }
                    }
                }
                assert(d.subrange(0, (i - from + 1) as int) =~= next);
                lemma_digits_grow(d, (i - from + 1) as int);
            }
            return None;
        }
        v = w;
        proof {
            assert forall|k: int| 0 <= k < next.len() implies is_digit(#[trigger] next[k]) by {
                if k < pre.len() {
                    assert(next[k] == pre[k]);
                }
            }
        }
        i = i + 1;
    }
    proof {
        assert(s@.subrange(from as int, i as int) =~= d);
    }
    Some(v)
}

/// The value of the digits of a prefix is no more than that of the whole.
proof fn lemma_digits_grow(d: Seq<char>, n: int)
    requires
        0 <= n <= d.len(),
        all_digits(d.subrange(0, n)),
    ensures
        all_digits(d) ==> digits_value(d.subrange(0, n)) <= digits_value(d),
    decreases d.len(),
{
    if all_digits(d) && n < d.len() {
        let e = d.drop_last();
        assert(all_digits(e)) by {
            assert forall|k: int| 0 <= k < e.len() implies is_digit(#[trigger] e[k]) by {
                assert(e[k] == d[k]);
            }
        }
        assert(e.subrange(0, n) =~= d.subrange(0, n));
        lemma_digits_grow(e, n);
        lemma_digits_nonneg(e);
        assert(is_digit(d[d.len() - 1]));
    } else if n == d.len() {
        assert(d.subrange(0, n) =~= d);
    }
}

/// Reads `s` as a decimal `u32`, as `str::parse` does.
pub fn parse_u32(s: &str) -> (r: Option<u32>)
    ensures
        r == u32_of(s@),
{
    let cs = chars_of(s);
    let from: usize = if cs.len() > 0 && cs[0] == '+' { 1 } else { 0 };
    proof {
        assert(cs@.subrange(from as int, cs@.len() as int) =~= unsigned_part(s@));
    }
    match digits_up_to(cs.as_slice(), from, u32::MAX as u64) {
        Some(v) => Some(v as u32),
        None => None,
    }
}

/// Reads `s` as a decimal `i32`, as `str::parse` does.
pub fn parse_i32(s: &str) -> (r: Option<i32>)
    ensures
        r == i32_of(s@),
{
    let cs = chars_of(s);
    if cs.len() > 0 && cs[0] == '-' {
        proof {
            assert(cs@.subrange(1, cs@.len() as int) =~= s@.drop_first());
        }
        match digits_up_to(cs.as_slice(), 1, 0x8000_0000u64) {
            Some(v) => Some((0 - v as i64) as i32),
            None => None,
        }
    } else {
        let from: usize = if cs.len() > 0 && cs[0] == '+' { 1 } else { 0 };
        proof {
            assert(cs@.subrange(from as int, cs@.len() as int) =~= unsigned_part(s@));
        }
        match digits_up_to(cs.as_slice(), from, i32::MAX as u64) {
            Some(v) => Some(v as i32),
            None => None,
        }
    }
}

/// The character of a decimal digit.
pub open spec fn digit_char(d: nat) -> char {
    ((d + 48) as u8) as char
}

/// The decimal digits of `n`, without leading zeros.
pub open spec fn decimal(n: nat) -> Seq<char>
    decreases n,
{
    if n < 10 {
        seq![digit_char(n)]
    } else {
        decimal(n / 10) + seq![digit_char(n % 10)]
    }
}

/// Appends the decimal digits of `n` to `out`.
pub fn push_decimal(out: &mut String, n: u8)
    ensures
        final(out)@ == old(out)@ + decimal(n as nat),
{
    let ones: u8 = n % 10 + 48;
    if n >= 100 {
        let hundreds: u8 = n / 100 + 48;
        let tens: u8 = (n / 10) % 10 + 48;
        push_char(out, hundreds as char);
        push_char(out, tens as char);
        push_char(out, ones as char);
        proof {
            let m = (n / 10) as nat;
            assert(decimal(m / 10) == seq![digit_char(m / 10)]);
            assert(decimal(m) == decimal(m / 10) + seq![digit_char(m % 10)]);
            assert(decimal(n as nat) =~= seq![hundreds as char, tens as char, ones as char]);
        }
    } else if n >= 10 {
        let tens: u8 = n / 10 + 48;
        push_char(out, tens as char);
        push_char(out, ones as char);
        proof {
            assert(decimal((n / 10) as nat) == seq![digit_char((n / 10) as nat)]);
            assert(decimal(n as nat) =~= seq![tens as char, ones as char]);
        }
    } else {
        push_char(out, ones as char);
        proof {
            assert(decimal(n as nat) =~= seq![ones as char]);
        }
    }
}

} // verus!
