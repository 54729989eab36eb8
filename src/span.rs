use vstd::prelude::*;

use crate::text::{chars_of, eq_ic, push_range, range_eq_ic, slice_eq_ic};

verus! {

/// The text a document was read from, kept both as a string and as its characters.
#[derive(Debug)]
pub struct Source {
    text: String,
    chars: Vec<char>,
}

impl View for Source {
    type V = Seq<char>;

    closed spec fn view(&self) -> Seq<char> {
        self.chars@
    }
}

impl Source {
    /// The two forms agree; the text fits in memory.
    pub closed spec fn wf(&self) -> bool {
        self.text@ == self.chars@ && self.chars@.len() <= usize::MAX
    }

    pub fn new(s: &str) -> (r: Source)
        ensures
            r.wf(),
            r@ == s@,
            r@.len() <= usize::MAX,
    {
        let chars = chars_of(s);
        let _ = chars.len();
        Source { text: s.to_owned(), chars }
    }

    pub fn chars(&self) -> (r: &[char])
        ensures
            r@ == self@,
    {
        self.chars.as_slice()
    }

    pub fn as_str(&self) -> (r: &str)
        requires
            self.wf(),
        ensures
            r@ == self@,
    {
        self.text.as_str()
    }
}

/// A piece of text: a range of characters of the source, or text of its own.
#[derive(Debug)]
pub enum Span {
    Sliced(usize, usize),
    Owned(String),
}

impl Span {
    /// The text the span stands for, given the source.
    pub open spec fn text(&self, src: Seq<char>) -> Seq<char> {
        match self {
            Span::Sliced(start, end) => src.subrange(*start as int, *end as int),
            Span::Owned(s) => s@,
        }
    }

    /// A range span lies within a source of `len` characters.
    pub open spec fn fits(&self, len: nat) -> bool {
        match self {
            Span::Sliced(start, end) => *start <= *end && *end <= len,
            Span::Owned(_) => true,
        }
    }

    pub fn of<'a>(&'a self, source: &'a Source) -> (r: &'a str)
        requires
            source.wf(),
            self.fits(source@.len()),
        ensures
            r@ == self.text(source@),
    {
        match self {
            Span::Sliced(start, end) => source.as_str().substring_char(*start, *end),
            Span::Owned(value) => value.as_str(),
        }
    }

    /// The characters of the span's text.
    pub fn to_chars(&self, source: &Source) -> (r: Vec<char>)
        requires
            self.fits(source@.len()),
        ensures
            r@ == self.text(source@),
    {
        match self {
            Span::Sliced(start, end) => {
                let src = source.chars();
                let mut r: Vec<char> = Vec::new();
                let mut i: usize = *start;
                while i < *end
                    invariant
                        *start <= i <= *end <= src@.len(),
                        r@ == src@.subrange(*start as int, i as int),
                    decreases *end - i,
                {
                    r.push(src[i]);
                    proof {
                        assert(src@.subrange(*start as int, i + 1) =~= r@);
                    }
                    i = i + 1;
                }
                r
            },
            Span::Owned(value) => chars_of(value.as_str()),
        }
    }

    /// A span that holds its own copy of `value`.
    pub fn owned(value: &str) -> (r: Span)
        ensures
            r == Span::Owned(r->Owned_0) && r->Owned_0@ == value@,
    {
        Span::Owned(value.to_owned())
    }

    /// Appends the span's text to `out`.
    pub fn push_to(&self, out: &mut String, source: &Source)
        requires
            self.fits(source@.len()),
        ensures
            final(out)@ == old(out)@ + self.text(source@),
    {
        match self {
            Span::Sliced(start, end) => push_range(out, source.chars(), *start, *end),
            Span::Owned(value) => {
                let cs = chars_of(value.as_str());
                push_range(out, cs.as_slice(), 0, cs.len());
                proof {
                    assert(cs@.subrange(0, cs@.len() as int) =~= cs@);
                }
            },
        }
    }

    /// Whether the span's text equals `key` up to ASCII case.
    pub fn eq_ignore_case(&self, source: &Source, key: &[char]) -> (r: bool)
        requires
            self.fits(source@.len()),
        ensures
            r == eq_ic(self.text(source@), key@),
    {
        match self {
            Span::Sliced(start, end) => range_eq_ic(source.chars(), *start, *end, key),
            Span::Owned(value) => {
                let cs = chars_of(value.as_str());
                slice_eq_ic(cs.as_slice(), key)
            },
        }
    }
}

} // verus!
