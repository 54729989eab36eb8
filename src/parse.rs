use vstd::prelude::*;

use crate::item::{Item, Padding, Padding4, Prop};
use crate::span::{Source, Span};
use crate::text::chars_of;

verus! {

pub open spec fn is_newline(c: char) -> bool {
    c == '\r' || c == '\n'
}

/// The first position at or after `p` that holds a line terminator, or the end of the text.
pub open spec fn line_end(src: Seq<char>, p: int) -> int
    decreases src.len() - p,
{
    if p < 0 || p >= src.len() {
        src.len() as int
    } else if is_newline(src[p]) {
        p
    } else {
        line_end(src, p + 1)
    }
}

/// The first `=` in `src[p..end]`, if any.
pub open spec fn find_eq(src: Seq<char>, p: int, end: int) -> Option<int>
    decreases end - p,
{
    if p < 0 || p >= end || end > src.len() {
        None
    } else if src[p] == '=' {
        Some(p)
    } else {
        find_eq(src, p + 1, end)
    }
}

/// Where the line that ends at `end` is followed by the next one: past `\r\n`, `\r` or `\n`.
pub open spec fn next_start(src: Seq<char>, end: int) -> int {
    if end < src.len() && src[end] == '\r' && end + 1 < src.len() && src[end + 1] == '\n' {
        end + 2
    } else if end < src.len() {
        end + 1
    } else {
        src.len() as int
    }
}

/// The first position in `src[a..b]` that is not a space, or `b`.
pub open spec fn skip_spaces(src: Seq<char>, a: int, b: int) -> int
    decreases b - a,
{
    if a >= b {
        b
    } else if src[a] != ' ' {
        a
    } else {
        skip_spaces(src, a + 1, b)
    }
}

/// The position just past the last character of `src[a..b]` that is not a space, or `a`.
pub open spec fn back_spaces(src: Seq<char>, a: int, b: int) -> int
    decreases b - a,
{
    if b <= a {
        a
    } else if src[b - 1] != ' ' {
        b
    } else {
        back_spaces(src, a, b - 1)
    }
}

/// The bounds of `src[a..b]` without its leading and trailing spaces; `(b, b)` where it holds
/// nothing but spaces.
pub open spec fn trimmed(src: Seq<char>, a: int, b: int) -> (int, int) {
    let s = skip_spaces(src, a, b);
    if s == b {
        (b, b)
    } else {
        (s, back_spaces(src, a, b))
    }
}

/// Position of the first character of `src[a..b]` that is not a space, or `b`.
pub fn skip_spaces_in(src: &[char], a: usize, b: usize) -> (r: usize)
    requires
        a <= b <= src@.len(),
    ensures
        r == skip_spaces(src@, a as int, b as int),
        a <= r <= b,
{
    let mut i = a;
    while i < b
        invariant
            a <= i <= b <= src@.len(),
            skip_spaces(src@, a as int, b as int) == skip_spaces(src@, i as int, b as int),
        decreases b - i,
    {
        if src[i] != ' ' {
            return i;
        }
        i = i + 1;
    }
    b
}

/// Position just past the last character of `src[a..b]` that is not a space, or `a`.
pub fn back_spaces_in(src: &[char], a: usize, b: usize) -> (r: usize)
    requires
        a <= b <= src@.len(),
    ensures
        r == back_spaces(src@, a as int, b as int),
        a <= r <= b,
{
    let mut j = b;
    while j > a
        invariant
            a <= j <= b <= src@.len(),
            back_spaces(src@, a as int, b as int) == back_spaces(src@, a as int, j as int),
        decreases j - a,
    {
        if src[j - 1] != ' ' {
            return j;
        }
        j = j - 1;
    }
    a
}

/// Bounds of `src[a..b]` without leading and trailing spaces.
pub fn trimmed_in(src: &[char], a: usize, b: usize) -> (r: (usize, usize))
    requires
        a <= b <= src@.len(),
    ensures
        (r.0 as int, r.1 as int) == trimmed(src@, a as int, b as int),
        a <= r.0 <= r.1 <= b,
{
    let start = skip_spaces_in(src, a, b);
    if start == b {
        return (b, b);
    }
    proof {
        lemma_skip_back(src@, a as int, b as int);
    }
    (start, back_spaces_in(src, a, b))
}

/// Where `src[a..b]` holds a character other than a space, the first such character comes no
/// later than the last one.
pub proof fn lemma_skip_back(src: Seq<char>, a: int, b: int)
    requires
        a <= b <= src.len(),
        skip_spaces(src, a, b) < b,
    ensures
        skip_spaces(src, a, b) < back_spaces(src, a, b),
        src[skip_spaces(src, a, b)] != ' ',
        src[back_spaces(src, a, b) - 1] != ' ',
    decreases b - a,
{
    lemma_skip_below(src, a, b);
    if src[b - 1] == ' ' {
        lemma_skip_shrink(src, a, b);
        lemma_skip_back(src, a, b - 1);
    }
}

proof fn lemma_skip_below(src: Seq<char>, a: int, b: int)
    requires
        a <= b <= src.len(),
    ensures
        a <= skip_spaces(src, a, b) <= b,
        skip_spaces(src, a, b) < b ==> src[skip_spaces(src, a, b)] != ' ',
    decreases b - a,
{
    if a < b && src[a] == ' ' {
        lemma_skip_below(src, a + 1, b);
    }
}

proof fn lemma_skip_shrink(src: Seq<char>, a: int, b: int)
    requires
        a < b <= src.len(),
        skip_spaces(src, a, b) < b - 1,
    ensures
        skip_spaces(src, a, b - 1) == skip_spaces(src, a, b),
    decreases b - a,
{
    if src[a] == ' ' {
        lemma_skip_below(src, a + 1, b);
        lemma_skip_shrink(src, a + 1, b);
    }
}

pub proof fn lemma_line_end(src: Seq<char>, p: int)
    requires
        0 <= p <= src.len(),
    ensures
        p <= line_end(src, p) <= src.len(),
        line_end(src, p) < src.len() ==> is_newline(src[line_end(src, p)]),
        forall|i: int| p <= i < line_end(src, p) ==> !is_newline(#[trigger] src[i]),
    decreases src.len() - p,
{
    if p < src.len() && !is_newline(src[p]) {
        lemma_line_end(src, p + 1);
    }
}

pub proof fn lemma_find_eq(src: Seq<char>, p: int, end: int)
    requires
        0 <= p <= end <= src.len(),
    ensures
        find_eq(src, p, end) matches Some(q) ==> p <= q < end && src[q] == '=',
    decreases end - p,
{
    if p < end && src[p] != '=' {
        lemma_find_eq(src, p + 1, end);
    }
}

/// Where one line of the text lies: bounds without surrounding spaces, its first `=`, where its
/// terminator starts, and where the next line starts.
#[derive(Debug, PartialEq, Eq, Structural)]
pub struct Line {
    pub start_trimmed: usize,
    pub end_trimmed: usize,
    pub eq: Option<usize>,
    pub end: usize,
    pub start_next: usize,
}

impl Line {
    /// The line is the one of `src` that starts at `p`.
    pub open spec fn describes(&self, src: Seq<char>, p: int) -> bool {
        &&& self.end == line_end(src, p)
        &&& self.start_next == next_start(src, self.end as int)
        &&& (self.start_trimmed as int, self.end_trimmed as int) == trimmed(
            src,
            p,
            self.end as int,
        )
        &&& match self.eq {
            Some(q) => find_eq(src, p, self.end as int) == Some(q as int),
            None => find_eq(src, p, self.end as int) is None,
        }
    }

    /// The same line, with every position moved `offset` further.
    pub fn offset(self, offset: usize) -> (r: Line)
        requires
            self.start_trimmed + offset <= usize::MAX,
            self.end_trimmed + offset <= usize::MAX,
            self.end + offset <= usize::MAX,
            self.start_next + offset <= usize::MAX,
            self.eq matches Some(q) ==> q + offset <= usize::MAX,
        ensures
            r.start_trimmed == self.start_trimmed + offset,
            r.end_trimmed == self.end_trimmed + offset,
            r.end == self.end + offset,
            r.start_next == self.start_next + offset,
            r.eq == (match self.eq {
                Some(q) => Some((q + offset) as usize),
                None => None,
            }),
    {
        Line {
            start_trimmed: self.start_trimmed + offset,
            end_trimmed: self.end_trimmed + offset,
            eq: match self.eq {
                Some(q) => Some(q + offset),
                None => None,
            },
            end: self.end + offset,
            start_next: self.start_next + offset,
        }
    }
}

/// The line of `s` that starts at `start`; `None` once no text is left.
pub fn next_line(s: &[char], start: usize) -> (r: Option<Line>)
    requires
        start <= s@.len(),
    ensures
        r is None <==> start == s@.len(),
        r matches Some(l) ==> l.describes(s@, start as int),
{
    if start == s.len() {
        return None;
    }
    let ghost src = s@;
    let ghost e = line_end(src, start as int);
    proof {
        lemma_line_end(src, start as int);
    }
    let mut i: usize = start;
    let mut eq: Option<usize> = None;
    while i < s.len() && !(s[i] == '\r' || s[i] == '\n')
        invariant
            start <= i <= e <= src.len(),
            src == s@,
            e == line_end(src, start as int),
            line_end(src, i as int) == e,
            match eq {
                Some(q) => find_eq(src, start as int, e) == Some(q as int),
                None => find_eq(src, start as int, e) == find_eq(src, i as int, e),
            },
        decreases s@.len() - i,
    {
        proof {
            lemma_line_end(src, i as int);
            lemma_line_end(src, i + 1);
        }
        if s[i] == '=' && eq.is_none() {
            eq = Some(i);
        }
        i = i + 1;
    }
    let end = i;
    let start_next = if end < s.len() && s[end] == '\r' && end + 1 < s.len() && s[end + 1]
        == '\n' {
        end + 2
    } else if end < s.len() {
        end + 1
    } else {
        s.len()
    };
    let (start_trimmed, end_trimmed) = trimmed_in(s, start, end);
    Some(Line { start_trimmed, end_trimmed, eq, end, start_next })
}

/// The item that the line of `src` starting at `p` is read as.
pub open spec fn item_at(src: Seq<char>, p: int) -> Item {
    let e = line_end(src, p);
    let n = next_start(src, e);
    let (ts, te) = trimmed(src, p, e);
    let line = Span::Sliced(p as usize, n as usize);
    let pad = Padding(Span::Sliced(p as usize, ts as usize), Span::Sliced(te as usize, n as usize));
    if ts == te {
        Item::Blank(line)
    } else if src[ts] == '[' {
        if src[te - 1] == ']' {
            Item::Section(Span::Sliced((ts + 1) as usize, (te - 1) as usize), pad)
        } else {
            Item::Error(line)
        }
    } else if src[ts] == ';' {
        Item::Comment(Span::Sliced((ts + 1) as usize, te as usize), pad)
    } else {
        match find_eq(src, p, e) {
            Some(q) => {
                let ke = back_spaces(src, ts, q);
                let vs = skip_spaces(src, q + 1, te);
                Item::Property(
                    Prop {
                        key: Span::Sliced(ts as usize, ke as usize),
                        value: Span::Sliced(vs as usize, te as usize),
                    },
                    Padding4(
                        pad.0,
                        Span::Sliced(ke as usize, q as usize),
                        Span::Sliced((q + 1) as usize, vs as usize),
                        pad.1,
                    ),
                )
            },
            None => Item::Error(line),
        }
    }
}

/// Where the line after the one starting at `p` starts.
pub open spec fn after_line(src: Seq<char>, p: int) -> int {
    next_start(src, line_end(src, p))
}

/// The items of `src`, one for each line from position `p` on.
pub open spec fn items_from(src: Seq<char>, p: int) -> Seq<Item>
    decreases src.len() - p,
{
    if p < 0 || p >= src.len() || after_line(src, p) <= p {
        seq![]
    } else {
        seq![item_at(src, p)] + items_from(src, after_line(src, p))
    }
}

/// The items a whole text is read as.
pub open spec fn parse(src: Seq<char>) -> Seq<Item> {
    items_from(src, 0)
}

/// The text that a run of items writes.
pub open spec fn texts(items: Seq<Item>, src: Seq<char>) -> Seq<char>
    decreases items.len(),
{
    if items.len() == 0 {
        seq![]
    } else {
        texts(items.drop_last(), src) + items.last().text(src)
    }
}

/// Every range span of every item lies within a source of `len` characters.
pub open spec fn all_fit(items: Seq<Item>, len: nat) -> bool {
    forall|i: int| 0 <= i < items.len() ==> #[trigger] items[i].fits(len)
}

pub proof fn lemma_texts_concat(a: Seq<Item>, b: Seq<Item>, src: Seq<char>)
    ensures
        texts(a + b, src) == texts(a, src) + texts(b, src),
    decreases b.len(),
{
    if b.len() == 0 {
        assert(a + b =~= a);
    } else {
        lemma_texts_concat(a, b.drop_last(), src);
        assert((a + b).drop_last() =~= a + b.drop_last());
    }
}

pub proof fn lemma_after_line(src: Seq<char>, p: int)
    requires
        0 <= p < src.len(),
    ensures
        p < after_line(src, p) <= src.len(),
        line_end(src, p) < after_line(src, p) || line_end(src, p) == src.len(),
{
    lemma_line_end(src, p);
}

pub proof fn lemma_texts_one(x: Item, src: Seq<char>)
    ensures
        texts(seq![x], src) == x.text(src),
{
    assert(seq![x].drop_last() =~= Seq::<Item>::empty());
    assert(texts(Seq::<Item>::empty(), src) == Seq::<char>::empty());
    assert(texts(seq![x], src) =~= x.text(src));
}

proof fn lemma_section_text(src: Seq<char>, p: int, ts: int, te: int, n: int)
    requires
        0 <= p <= ts < te <= n <= src.len() <= usize::MAX,
        src[ts] == '[',
        src[te - 1] == ']',
    ensures
        ({
            let it = Item::Section(
                Span::Sliced((ts + 1) as usize, (te - 1) as usize),
                Padding(Span::Sliced(p as usize, ts as usize), Span::Sliced(te as usize, n as usize)),
            );
            it.text(src) == src.subrange(p, n) && it.fits(src.len())
        }),
{
    let it = Item::Section(
        Span::Sliced((ts + 1) as usize, (te - 1) as usize),
        Padding(Span::Sliced(p as usize, ts as usize), Span::Sliced(te as usize, n as usize)),
    );
    assert(it.text(src) =~= src.subrange(p, n));
}

proof fn lemma_comment_text(src: Seq<char>, p: int, ts: int, te: int, n: int)
    requires
        0 <= p <= ts < te <= n <= src.len() <= usize::MAX,
        src[ts] == ';',
    ensures
        ({
            let it = Item::Comment(
                Span::Sliced((ts + 1) as usize, te as usize),
                Padding(Span::Sliced(p as usize, ts as usize), Span::Sliced(te as usize, n as usize)),
            );
            it.text(src) == src.subrange(p, n) && it.fits(src.len())
        }),
{
    let it = Item::Comment(
        Span::Sliced((ts + 1) as usize, te as usize),
        Padding(Span::Sliced(p as usize, ts as usize), Span::Sliced(te as usize, n as usize)),
    );
    assert(it.text(src) =~= src.subrange(p, n));
}

proof fn lemma_property_text(
    src: Seq<char>,
    p: int,
    ts: int,
    ke: int,
    q: int,
    vs: int,
    te: int,
    n: int,
)
    requires
        0 <= p <= ts <= ke <= q < vs + 1,
        q + 1 <= vs <= te <= n <= src.len() <= usize::MAX,
        src[q] == '=',
    ensures
        ({
            let it = Item::Property(
                Prop {
                    key: Span::Sliced(ts as usize, ke as usize),
                    value: Span::Sliced(vs as usize, te as usize),
                },
                Padding4(
                    Span::Sliced(p as usize, ts as usize),
                    Span::Sliced(ke as usize, q as usize),
                    Span::Sliced((q + 1) as usize, vs as usize),
                    Span::Sliced(te as usize, n as usize),
                ),
            );
            it.text(src) == src.subrange(p, n) && it.fits(src.len())
        }),
{
    let it = Item::Property(
        Prop {
            key: Span::Sliced(ts as usize, ke as usize),
            value: Span::Sliced(vs as usize, te as usize),
        },
        Padding4(
            Span::Sliced(p as usize, ts as usize),
            Span::Sliced(ke as usize, q as usize),
            Span::Sliced((q + 1) as usize, vs as usize),
            Span::Sliced(te as usize, n as usize),
        ),
    );
    assert(it.text(src) =~= src.subrange(p, n));
}

/// The item read from a line writes that line back exactly, and its spans lie within the text.
pub proof fn lemma_item_at(src: Seq<char>, p: int)
    requires
        0 <= p < src.len(),
        src.len() <= usize::MAX,
    ensures
        item_at(src, p).text(src) == src.subrange(p, after_line(src, p)),
        item_at(src, p).fits(src.len()),
{
    let e = line_end(src, p);
    let n = next_start(src, e);
    lemma_line_end(src, p);
    lemma_after_line(src, p);
    let (ts, te) = trimmed(src, p, e);
    lemma_skip_below(src, p, e);
    lemma_back_range(src, p, e);
    if skip_spaces(src, p, e) < e {
        lemma_skip_back(src, p, e);
    }
    assert(p <= ts <= te <= e);
    if ts == te {
    } else if src[ts] == '[' {
        if src[te - 1] == ']' {
            lemma_section_text(src, p, ts, te, n);
        }
    } else if src[ts] == ';' {
        lemma_comment_text(src, p, ts, te, n);
    } else {
        lemma_find_eq(src, p, e);
        match find_eq(src, p, e) {
            Some(q) => {
                assert(ts <= q) by {
                    if q < ts {
                        lemma_skip_before(src, p, e, q);
                    }
                }
                assert(q < te) by {
                    if q >= te {
                        lemma_back_after(src, p, e, q);
                    }
                }
                lemma_skip_below(src, q + 1, te);
                lemma_back_range(src, ts, q);
                lemma_property_text(
                    src,
                    p,
                    ts,
                    back_spaces(src, ts, q),
                    q,
                    skip_spaces(src, q + 1, te),
                    te,
                    n,
                );
            },
            None => {},
        }
    }
}

proof fn lemma_skip_before(src: Seq<char>, a: int, b: int, q: int)
    requires
        a <= q < b <= src.len(),
        src[q] != ' ',
    ensures
        skip_spaces(src, a, b) <= q,
    decreases b - a,
{
    if a < q && src[a] == ' ' {
        lemma_skip_before(src, a + 1, b, q);
    }
}

proof fn lemma_back_after(src: Seq<char>, a: int, b: int, q: int)
    requires
        a <= q < b <= src.len(),
        src[q] != ' ',
    ensures
        back_spaces(src, a, b) > q,
    decreases b - a,
{
    if b - 1 > q && src[b - 1] == ' ' {
        lemma_back_after(src, a, b - 1, q);
    }
}

proof fn lemma_back_range(src: Seq<char>, a: int, b: int)
    requires
        a <= b <= src.len(),
    ensures
        a <= back_spaces(src, a, b) <= b,
    decreases b - a,
{
    if b > a && src[b - 1] == ' ' {
        lemma_back_range(src, a, b - 1);
    }
}

/// Reading a text and writing its items back gives the text again; every span lies within it.
pub proof fn lemma_items_from(src: Seq<char>, p: int)
    requires
        0 <= p <= src.len(),
        src.len() <= usize::MAX,
    ensures
        texts(items_from(src, p), src) == src.subrange(p, src.len() as int),
        all_fit(items_from(src, p), src.len()),
    decreases src.len() - p,
{
    if p < src.len() {
        let n = after_line(src, p);
        lemma_after_line(src, p);
        lemma_item_at(src, p);
        lemma_items_from(src, n);
        lemma_texts_concat(seq![item_at(src, p)], items_from(src, n), src);
        lemma_texts_one(item_at(src, p), src);
        assert(src.subrange(p, src.len() as int) =~= src.subrange(p, n) + src.subrange(
            n,
            src.len() as int,
        ));
        let items = items_from(src, p);
        assert forall|i: int| 0 <= i < items.len() implies #[trigger] items[i].fits(src.len()) by {
            if i > 0 {
                assert(items[i] == items_from(src, n)[i - 1]);
            }
        }
    } else {
        assert(src.subrange(p, src.len() as int) =~= seq![]);
    }
}

/// Reads the items of a source, one line at a time.
pub struct Parser<'a> {
    source: &'a Source,
    start_line: usize,
}

impl<'a> Parser<'a> {
    /// The items not read yet.
    pub closed spec fn remaining(&self) -> Seq<Item> {
        items_from(self.source@, self.start_line as int)
    }

    /// The source being read.
    pub closed spec fn source(&self) -> Seq<char> {
        self.source@
    }

    pub closed spec fn wf(&self) -> bool {
        self.start_line <= self.source@.len()
    }

    pub fn new(source: &'a Source) -> (r: Parser<'a>)
        ensures
            r.wf(),
            r.source() == source@,
            r.remaining() == parse(source@),
    {
        Parser { source, start_line: 0 }
    }

    /// Reads the next item; `None` once the source is used up.
    pub fn next(&mut self) -> (r: Option<Item>)
        requires
            old(self).wf(),
        ensures
            final(self).wf(),
            final(self).source() == old(self).source(),
            match r {
                Some(it) => old(self).remaining() == seq![it] + final(self).remaining(),
                None => old(self).remaining() == Seq::<Item>::empty() && final(self).remaining()
                    == Seq::<Item>::empty(),
            },
    {
        let src = self.source.chars();
        let start_line = self.start_line;
        let line = match next_line(src, start_line) {
            Some(line) => line,
            None => return None,
        };
        let ghost s = src@;
        proof {
            lemma_line_end(s, start_line as int);
            lemma_after_line(s, start_line as int);
            lemma_skip_below(s, start_line as int, line.end as int);
            lemma_back_range(s, start_line as int, line.end as int);
            if skip_spaces(s, start_line as int, line.end as int) < line.end {
                lemma_skip_back(s, start_line as int, line.end as int);
            }
        }
        let Line { start_trimmed, end_trimmed, eq, end, start_next } = line;
        let whole = Span::Sliced(start_line, start_next);
        let item = if start_trimmed == end_trimmed {
            Item::Blank(whole)
        } else if src[start_trimmed] == '[' {
            if src[end_trimmed - 1] == ']' {
                Item::Section(
                    Span::Sliced(start_trimmed + 1, end_trimmed - 1),
                    Padding(Span::Sliced(start_line, start_trimmed), Span::Sliced(end_trimmed, start_next)),
                )
            } else {
                Item::Error(whole)
            }
        } else if src[start_trimmed] == ';' {
            Item::Comment(
                Span::Sliced(start_trimmed + 1, end_trimmed),
                Padding(Span::Sliced(start_line, start_trimmed), Span::Sliced(end_trimmed, start_next)),
            )
        } else {
            match eq {
                Some(q) => {
                    proof {
                        lemma_find_eq(s, start_line as int, end as int);
                        if q < start_trimmed {
                            lemma_skip_before(s, start_line as int, end as int, q as int);
                        }
                        if q >= end_trimmed {
                            lemma_back_after(s, start_line as int, end as int, q as int);
                        }
                    }
                    let end_key = back_spaces_in(src, start_trimmed, q);
                    let start_value = skip_spaces_in(src, q + 1, end_trimmed);
                    Item::Property(
                        Prop {
                            key: Span::Sliced(start_trimmed, end_key),
                            value: Span::Sliced(start_value, end_trimmed),
                        },
                        Padding4(
                            Span::Sliced(start_line, start_trimmed),
                            Span::Sliced(end_key, q),
                            Span::Sliced(q + 1, start_value),
                            Span::Sliced(end_trimmed, start_next),
                        ),
                    )
                },
                None => Item::Error(whole),
            }
        };
        proof {
            assert(item == item_at(s, start_line as int));
        }
        self.start_line = start_next;
        Some(item)
    }

    /// Reads all the items that are left.
    pub fn collect_items(&mut self) -> (r: Vec<Item>)
        requires
            old(self).wf(),
        ensures
            r@ == old(self).remaining(),
            final(self).remaining() == Seq::<Item>::empty(),
            final(self).wf(),
            final(self).source() == old(self).source(),
    {
        let mut r: Vec<Item> = Vec::new();
        loop
            invariant
                self.wf(),
                self.source() == old(self).source(),
                old(self).remaining() == r@ + self.remaining(),
            decreases self.remaining().len(),
        {
            match self.next() {
                Some(it) => {
                    r.push(it);
                },
                None => {
                    assert(r@ + Seq::<Item>::empty() =~= r@);
                    return r;
                },
            }
        }
    }
}

/// Index of the first character of `s` that is not a space, or the length of `s`.
pub fn trimmed_range_start(s: &str) -> (r: usize)
    ensures
        r == skip_spaces(s@, 0, s@.len() as int),
{
    let cs = chars_of(s);
    skip_spaces_in(cs.as_slice(), 0, cs.len())
}

/// Index just past the last character of `s` that is not a space, or 0.
pub fn trimmed_range_end(s: &str) -> (r: usize)
    ensures
        r == back_spaces(s@, 0, s@.len() as int),
{
    let cs = chars_of(s);
    back_spaces_in(cs.as_slice(), 0, cs.len())
}

/// Bounds of `s` without its leading and trailing spaces; `(len, len)` where `s` holds nothing
/// but spaces. Bounds count characters.
pub fn trimmed_range(s: &str) -> (r: (usize, usize))
    ensures
        (r.0 as int, r.1 as int) == trimmed(s@, 0, s@.len() as int),
{
    let cs = chars_of(s);
    trimmed_in(cs.as_slice(), 0, cs.len())
}

} // verus!
