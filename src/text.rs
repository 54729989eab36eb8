use vstd::prelude::*;

verus! {

/// ASCII lower-casing of one character; every other character stays as it is.
pub open spec fn lower(c: char) -> char {
    if 'A' <= c && c <= 'Z' {
        ((c as u8) + 32u8) as char
    } else {
        c
    }
}

/// ASCII lower-casing of a whole text.
pub open spec fn lower_seq(s: Seq<char>) -> Seq<char> {
    s.map_values(|c: char| lower(c))
}

/// Two texts are equal when ASCII letters are compared without regard to case.
pub open spec fn eq_ic(a: Seq<char>, b: Seq<char>) -> bool {
    lower_seq(a) == lower_seq(b)
}

pub fn lower_char(c: char) -> (r: char)
    ensures
        r == lower(c),
{
    if 'A' <= c && c <= 'Z' {
        ((c as u8) + 32u8) as char
    } else {
        c
    }
}

/// Whether `a[a_start..a_end]` equals `b` up to ASCII case.
pub fn range_eq_ic(a: &[char], a_start: usize, a_end: usize, b: &[char]) -> (r: bool)
    requires
        a_start <= a_end <= a@.len(),
    ensures
        r == eq_ic(a@.subrange(a_start as int, a_end as int), b@),
{
    let ghost sa = a@.subrange(a_start as int, a_end as int);
    if a_end - a_start != b.len() {
        proof {
            assert(lower_seq(sa).len() != lower_seq(b@).len());
        }
        return false;
    }
    let mut i: usize = 0;
    while i < b.len()
        invariant
            a_start <= a_end <= a@.len(),
            a_end - a_start == b@.len(),
            i <= b@.len(),
            sa == a@.subrange(a_start as int, a_end as int),
            forall|j: int| 0 <= j < i ==> lower(sa[j]) == lower(b@[j]),
        decreases b@.len() - i,
    {
        if lower_char(a[a_start + i]) != lower_char(b[i]) {
            proof {
                assert(lower_seq(sa)[i as int] != lower_seq(b@)[i as int]);
            }
            return false;
        }
        i = i + 1;
    }
    proof {
        assert(lower_seq(sa) =~= lower_seq(b@));
    }
    true
}

/// Whether `a` equals `b` up to ASCII case.
pub fn slice_eq_ic(a: &[char], b: &[char]) -> (r: bool)
    ensures
        r == eq_ic(a@, b@),
{
    proof {
        assert(a@.subrange(0, a@.len() as int) =~= a@);
    }
    range_eq_ic(a, 0, a.len(), b)
}

/// The characters of `s`, in order.
pub fn chars_of(s: &str) -> (r: Vec<char>)
    ensures
        r@ == s@,
{
    let mut r: Vec<char> = Vec::new();
    for c in it: s.chars()
        invariant
            r@ == it.seq().subrange(0, it.index() as int),
    {
        r.push(c);
    }
    r
}

/// Relies on `String::push`: the character is added at the end.
#[verifier::external_body]
pub(crate) fn push_char(s: &mut String, c: char)
    ensures
        final(s)@ == old(s)@.push(c),
{
    s.push(c);
}

/// Appends `src[start..end]` to `out`.
pub fn push_range(out: &mut String, src: &[char], start: usize, end: usize)
    requires
        start <= end <= src@.len(),
    ensures
        final(out)@ == old(out)@ + src@.subrange(start as int, end as int),
{
    let mut i: usize = start;
    while i < end
        invariant
            start <= i <= end <= src@.len(),
            out@ == old(out)@ + src@.subrange(start as int, i as int),
        decreases end - i,
    {
        push_char(out, src[i]);
        proof {
            assert(src@.subrange(start as int, i + 1) =~= src@.subrange(start as int, i as int).push(src@[i as int]));
        }
        i = i + 1;
    }
}

} // verus!
