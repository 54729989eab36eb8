use vstd::prelude::*;

use crate::span::{Source, Span};
use crate::text::push_char;

verus! {

/// Formatting text before and after an item's content.
#[derive(Debug)]
pub struct Padding(pub Span, pub Span);

/// Formatting text of a property: before the key, before `=`, after `=`, after the value.
#[derive(Debug)]
pub struct Padding4(pub Span, pub Span, pub Span, pub Span);

/// A key and its value.
#[derive(Debug)]
pub struct Prop {
    pub key: Span,
    pub value: Span,
}

/// One line of a document.
#[derive(Debug)]
pub enum Item {
    /// A line that could not be read, kept verbatim with its line ending.
    Error(Span),
    /// A section header `[key]`.
    Section(Span, Padding),
    /// A `key=value` line.
    Property(Prop, Padding4),
    /// A `;comment` line.
    Comment(Span, Padding),
    /// A line holding nothing but spaces, kept verbatim with its line ending.
    Blank(Span),
}

impl Padding {
    pub open spec fn fits(&self, len: nat) -> bool {
        self.0.fits(len) && self.1.fits(len)
    }
}

impl Padding4 {
    pub open spec fn fits(&self, len: nat) -> bool {
        self.0.fits(len) && self.1.fits(len) && self.2.fits(len) && self.3.fits(len)
    }
}

impl Item {
    /// Every range span of the item lies within a source of `len` characters.
    pub open spec fn fits(&self, len: nat) -> bool {
        match self {
            Item::Error(s) => s.fits(len),
            Item::Section(s, p) => s.fits(len) && p.fits(len),
            Item::Property(prop, p) => prop.key.fits(len) && prop.value.fits(len) && p.fits(len),
            Item::Comment(s, p) => s.fits(len) && p.fits(len),
            Item::Blank(s) => s.fits(len),
        }
    }

    /// The text the item writes: its content framed by its padding.
    pub open spec fn text(&self, src: Seq<char>) -> Seq<char> {
        match self {
            Item::Error(s) => s.text(src),
            Item::Section(s, p) => p.0.text(src) + seq!['['] + s.text(src) + seq![']'] + p.1.text(
                src,
            ),
            Item::Property(prop, p) => p.0.text(src) + prop.key.text(src) + p.1.text(src) + seq![
                '=',
            ] + p.2.text(src) + prop.value.text(src) + p.3.text(src),
            Item::Comment(s, p) => p.0.text(src) + seq![';'] + s.text(src) + p.1.text(src),
            Item::Blank(s) => s.text(src),
        }
    }

    /// Appends the item's text to `out`.
    pub fn push_to(&self, out: &mut String, source: &Source)
        requires
            self.fits(source@.len()),
        ensures
            final(out)@ == old(out)@ + self.text(source@),
    {
        let ghost src = source@;
        match self {
            Item::Error(s) => s.push_to(out, source),
            Item::Section(s, p) => {
                p.0.push_to(out, source);
                push_char(out, '[');
                s.push_to(out, source);
                push_char(out, ']');
                p.1.push_to(out, source);
                proof {
                    assert(final(out)@ =~= old(out)@ + self.text(src));
                }
            },
            Item::Property(prop, p) => {
                p.0.push_to(out, source);
                prop.key.push_to(out, source);
                p.1.push_to(out, source);
                push_char(out, '=');
                p.2.push_to(out, source);
                prop.value.push_to(out, source);
                p.3.push_to(out, source);
                proof {
                    assert(final(out)@ =~= old(out)@ + self.text(src));
                }
            },
            Item::Comment(s, p) => {
                p.0.push_to(out, source);
                push_char(out, ';');
                s.push_to(out, source);
                p.1.push_to(out, source);
                proof {
                    assert(final(out)@ =~= old(out)@ + self.text(src));
                }
            },
            Item::Blank(s) => s.push_to(out, source),
        }
    }
}

/// Whether `a` and `b` hold the same characters.
pub fn chars_equal(a: &[char], b: &[char]) -> (r: bool)
    ensures
        r == (a@ == b@),
{
    if a.len() != b.len() {
        return false;
    }
    let mut i: usize = 0;
    while i < a.len()
        invariant
            a@.len() == b@.len(),
            i <= a@.len(),
            forall|j: int| 0 <= j < i ==> a@[j] == b@[j],
        decreases a@.len() - i,
    {
        if a[i] != b[i] {
            return false;
        }
        i = i + 1;
    }
    proof {
        assert(a@ =~= b@);
    }
    true
}

/// Whether two spans stand for the same text, each read against its own source.
fn same_text(a: &Span, sa: &Source, b: &Span, sb: &Source) -> (r: bool)
    requires
        a.fits(sa@.len()),
        b.fits(sb@.len()),
    ensures
        r == (a.text(sa@) == b.text(sb@)),
{
    let x = a.to_chars(sa);
    let y = b.to_chars(sb);
    chars_equal(x.as_slice(), y.as_slice())
}

/// Two items are of one kind and each of their parts reads the same.
pub open spec fn same_item(a: Item, sa: Seq<char>, b: Item, sb: Seq<char>) -> bool {
    match (a, b) {
        (Item::Error(x), Item::Error(y)) => x.text(sa) == y.text(sb),
        (Item::Blank(x), Item::Blank(y)) => x.text(sa) == y.text(sb),
        (Item::Section(x, p), Item::Section(y, q)) => x.text(sa) == y.text(sb) && p.0.text(sa)
            == q.0.text(sb) && p.1.text(sa) == q.1.text(sb),
        (Item::Comment(x, p), Item::Comment(y, q)) => x.text(sa) == y.text(sb) && p.0.text(sa)
            == q.0.text(sb) && p.1.text(sa) == q.1.text(sb),
        (Item::Property(x, p), Item::Property(y, q)) => x.key.text(sa) == y.key.text(sb)
            && x.value.text(sa) == y.value.text(sb) && p.0.text(sa) == q.0.text(sb) && p.1.text(sa)
            == q.1.text(sb) && p.2.text(sa) == q.2.text(sb) && p.3.text(sa) == q.3.text(sb),
        _ => false,
    }
}

/// An item together with the source its ranges refer to.
#[derive(Debug)]
pub struct SourcedItem<'a> {
    pub source: &'a Source,
    pub item: &'a Item,
}

impl Item {
    pub fn with_source<'a>(&'a self, source: &'a Source) -> (r: SourcedItem<'a>)
        ensures
            r.source == source,
            r.item == self,
    {
        SourcedItem { source, item: self }
    }
}

impl<'a> SourcedItem<'a> {
    pub open spec fn fits(&self) -> bool {
        self.item.fits(self.source@.len())
    }

    /// The item's text.
    pub fn to_string(&self) -> (r: String)
        requires
            self.fits(),
        ensures
            r@ == self.item.text(self.source@),
    {
        let mut out = String::new();
        self.item.push_to(&mut out, self.source);
        out
    }

    /// Whether the two items are of one kind and each of their parts reads the same.
    pub fn same_as(&self, other: &SourcedItem) -> (r: bool)
        requires
            self.fits(),
            other.fits(),
        ensures
            r == same_item(*self.item, self.source@, *other.item, other.source@),
    {
        let (sa, sb) = (self.source, other.source);
        match (self.item, other.item) {
            (Item::Error(x), Item::Error(y)) => same_text(x, sa, y, sb),
            (Item::Blank(x), Item::Blank(y)) => same_text(x, sa, y, sb),
            (Item::Section(x, p), Item::Section(y, q)) => same_text(x, sa, y, sb) && same_text(
                &p.0,
                sa,
                &q.0,
                sb,
            ) && same_text(&p.1, sa, &q.1, sb),
            (Item::Comment(x, p), Item::Comment(y, q)) => same_text(x, sa, y, sb) && same_text(
                &p.0,
                sa,
                &q.0,
                sb,
            ) && same_text(&p.1, sa, &q.1, sb),
            (Item::Property(x, p), Item::Property(y, q)) => same_text(&x.key, sa, &y.key, sb)
                && same_text(&x.value, sa, &y.value, sb) && same_text(&p.0, sa, &q.0, sb)
                && same_text(&p.1, sa, &q.1, sb) && same_text(&p.2, sa, &q.2, sb) && same_text(
                &p.3,
                sa,
                &q.3,
                sb,
            ),
            _ => false,
        }
    }
}

} // verus!
