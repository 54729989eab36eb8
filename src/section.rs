use vstd::prelude::*;

use crate::item::{Item, Padding4, Prop};
use crate::parse::{all_fit, texts};
use crate::span::{Source, Span};
use crate::text::{chars_of, eq_ic, push_char};

verus! {

/// The item is a property whose key equals `key` up to ASCII case.
pub open spec fn prop_with(it: Item, src: Seq<char>, key: Seq<char>) -> bool {
    match it {
        Item::Property(prop, _) => eq_ic(prop.key.text(src), key),
        _ => false,
    }
}

/// Index of the last property of `items` with key `key`, or -1.
pub open spec fn last_match(items: Seq<Item>, src: Seq<char>, key: Seq<char>) -> int
    decreases items.len(),
{
    if items.len() == 0 {
        -1
    } else if prop_with(items.last(), src, key) {
        items.len() - 1
    } else {
        last_match(items.drop_last(), src, key)
    }
}

/// The value of the last property with key `key`, if there is one.
pub open spec fn get_value(items: Seq<Item>, src: Seq<char>, key: Seq<char>) -> Option<Seq<char>> {
    let j = last_match(items, src, key);
    if j >= 0 {
        match items[j] {
            Item::Property(prop, _) => Some(prop.value.text(src)),
            _ => None,
        }
    } else {
        None
    }
}

/// `items` without the properties whose key is `key`.
pub open spec fn without(items: Seq<Item>, src: Seq<char>, key: Seq<char>) -> Seq<Item>
    decreases items.len(),
{
    if items.len() == 0 {
        items
    } else if prop_with(items.last(), src, key) {
        without(items.drop_last(), src, key)
    } else {
        without(items.drop_last(), src, key).push(items.last())
    }
}

/// The key and value of each property of `items`, in order.
pub open spec fn pairs(items: Seq<Item>, src: Seq<char>) -> Seq<(Seq<char>, Seq<char>)>
    decreases items.len(),
{
    if items.len() == 0 {
        seq![]
    } else {
        match items.last() {
            Item::Property(prop, _) => pairs(items.drop_last(), src).push(
                (prop.key.text(src), prop.value.text(src)),
            ),
            _ => pairs(items.drop_last(), src),
        }
    }
}

/// `after` is `before` with the value of the property at `j` replaced by `value`; its key and
/// formatting stay.
pub open spec fn value_replaced(before: Seq<Item>, after: Seq<Item>, j: int, value: String) -> bool {
    0 <= j < before.len() && match before[j] {
        Item::Property(prop, pad) => after == before.update(
            j,
            Item::Property(Prop { key: prop.key, value: Span::Owned(value) }, pad),
        ),
        _ => false,
    }
}

/// The item is a new property `key=value` ended by `\n`, with no other formatting.
pub open spec fn fresh_prop(it: Item, key: Seq<char>, value: String) -> bool {
    match it {
        Item::Property(prop, Padding4(a, b, c, d)) => {
            &&& prop.key matches Span::Owned(k) && k@ == key
            &&& prop.value == Span::Owned(value)
            &&& a matches Span::Owned(s) && s@.len() == 0
            &&& b matches Span::Owned(s) && s@.len() == 0
            &&& c matches Span::Owned(s) && s@.len() == 0
            &&& d matches Span::Owned(s) && s@ == seq!['\n']
        },
        _ => false,
    }
}

/// `after` is `before` with `value` written under `key`: over the last property with that key
/// where there is one, else as a new property at the end.
pub open spec fn value_set(
    before: Seq<Item>,
    after: Seq<Item>,
    src: Seq<char>,
    key: Seq<char>,
    value: String,
) -> bool {
    let j = last_match(before, src, key);
    if j >= 0 {
        value_replaced(before, after, j, value)
    } else {
        after.len() == before.len() + 1 && after.drop_last() == before && fresh_prop(
            after.last(),
            key,
            value,
        )
    }
}

/// `after` is `before` with the key of every property keyed `from` made `to`.
pub open spec fn relabeled(
    before: Seq<Item>,
    after: Seq<Item>,
    src: Seq<char>,
    from: Seq<char>,
    to: Seq<char>,
) -> bool {
    &&& after.len() == before.len()
    &&& forall|j: int|
        0 <= j < before.len() ==> {
            if prop_with(#[trigger] before[j], src, from) {
                match (before[j], after[j]) {
                    (Item::Property(pa, pad1), Item::Property(pb, pad2)) => {
                        &&& pad1 == pad2
                        &&& pa.value == pb.value
                        &&& pb.key matches Span::Owned(k) && k@ == to
                    },
                    _ => false,
                }
            } else {
                after[j] == before[j]
            }
        }
}

/// The item is a section header.
pub open spec fn is_header(it: Item) -> bool {
    it is Section
}

/// The key a header names.
pub open spec fn header_key(it: Item, src: Seq<char>) -> Seq<char> {
    match it {
        Item::Section(key, _) => key.text(src),
        _ => seq![],
    }
}

/// `after` is the header `before` naming `to`, with the same formatting.
pub open spec fn header_renamed(before: Item, after: Item, to: Seq<char>) -> bool {
    match (before, after) {
        (Item::Section(_, pa), Item::Section(Span::Owned(k), pb)) => pa == pb && k@ == to,
        _ => false,
    }
}

/// The text of an optional string.
pub open spec fn opt_view(o: Option<&str>) -> Option<Seq<char>> {
    match o {
        Some(s) => Some(s@),
        None => None,
    }
}

/// A string holding the characters `cs`.
pub fn string_of(cs: &[char]) -> (r: String)
    ensures
        r@ == cs@,
{
    let mut r = String::new();
    let mut i: usize = 0;
    while i < cs.len()
        invariant
            i <= cs@.len(),
            r@ == cs@.subrange(0, i as int),
        decreases cs@.len() - i,
    {
        push_char(&mut r, cs[i]);
        proof {
            assert(cs@.subrange(0, i + 1) =~= r@);
        }
        i = i + 1;
    }
    proof {
        assert(cs@.subrange(0, cs@.len() as int) =~= cs@);
    }
    r
}

pub proof fn lemma_last_match(items: Seq<Item>, src: Seq<char>, key: Seq<char>)
    ensures
        -1 <= last_match(items, src, key) < items.len(),
        last_match(items, src, key) >= 0 ==> prop_with(
            items[last_match(items, src, key)],
            src,
            key,
        ),
        forall|j: int|
            last_match(items, src, key) < j < items.len() ==> !prop_with(
                #[trigger] items[j],
                src,
                key,
            ),
    decreases items.len(),
{
    if items.len() > 0 && !prop_with(items.last(), src, key) {
        lemma_last_match(items.drop_last(), src, key);
        let m = last_match(items, src, key);
        assert forall|j: int| m < j < items.len() implies !prop_with(
            #[trigger] items[j],
            src,
            key,
        ) by {
            if j < items.len() - 1 {
                assert(items[j] == items.drop_last()[j]);
            }
        }
    }
}

/// The texts of a sequence of string pairs.
pub open spec fn pair_views(ps: Seq<(&str, &str)>) -> Seq<(Seq<char>, Seq<char>)> {
    ps.map_values(|p: (&str, &str)| (p.0@, p.1@))
}

pub proof fn lemma_without_fits(items: Seq<Item>, src: Seq<char>, key: Seq<char>)
    requires
        all_fit(items, src.len()),
    ensures
        all_fit(without(items, src, key), src.len()),
    decreases items.len(),
{
    if items.len() > 0 {
        lemma_without_fits(items.drop_last(), src, key);
        assert(items.last().fits(src.len()));
        let w = without(items.drop_last(), src, key);
        if !prop_with(items.last(), src, key) {
            assert forall|i: int| 0 <= i < w.push(items.last()).len() implies #[trigger] w.push(
                items.last(),
            )[i].fits(src.len()) by {
                if i < w.len() {
                    assert(w[i].fits(src.len()));
                }
            }
        }
    }
}

/// One run of items: a header and what follows it, or the text before the first header.
#[derive(Debug)]
pub struct ConcreteSection {
    items: Vec<Item>,
}

impl View for ConcreteSection {
    type V = Seq<Item>;

    closed spec fn view(&self) -> Seq<Item> {
        self.items@
    }
}

impl ConcreteSection {
    /// The section's text.
    pub open spec fn text(&self, src: Seq<char>) -> Seq<char> {
        texts(self@, src)
    }

    /// The section starts with a header.
    pub open spec fn headed(&self) -> bool {
        self@.len() > 0 && is_header(self@[0])
    }

    /// The key the section's header names.
    pub open spec fn key_of(&self, src: Seq<char>) -> Seq<char> {
        header_key(self@[0], src)
    }

    pub fn new(header: Item) -> (r: ConcreteSection)
        requires
            is_header(header),
        ensures
            r@ == seq![header],
    {
        let mut items: Vec<Item> = Vec::new();
        items.push(header);
        ConcreteSection { items }
    }

    pub fn new_global() -> (r: ConcreteSection)
        ensures
            r@ == Seq::<Item>::empty(),
    {
        ConcreteSection { items: Vec::new() }
    }

    pub fn push_item(&mut self, item: Item)
        ensures
            final(self)@ == old(self)@.push(item),
    {
        self.items.push(item);
    }

    /// The key the header names.
    pub fn key<'a>(&'a self, source: &'a Source) -> (r: &'a str)
        requires
            self.headed(),
            source.wf(),
            all_fit(self@, source@.len()),
        ensures
            r@ == self.key_of(source@),
    {
        proof {
            assert(self@[0].fits(source@.len()));
        }
        match &self.items[0] {
            Item::Section(key, _) => key.of(source),
            _ => "",
        }
    }

    /// Names `to_key` in the header in place of its key.
    pub fn set_key(&mut self, to_key: &str)
        requires
            old(self).headed(),
        ensures
            final(self)@.len() == old(self)@.len(),
            final(self)@.drop_first() == old(self)@.drop_first(),
            header_renamed(old(self)@[0], final(self)@[0], to_key@),
    {
        let header = self.items.remove(0);
        let header = match header {
            Item::Section(_, padding) => Item::Section(Span::owned(to_key), padding),
            other => other,
        };
        self.items.insert(0, header);
        proof {
            assert(self.items@.drop_first() =~= old(self)@.drop_first());
        }
    }

    /// Index of the last property keyed `key`.
    pub fn find_prop(&self, source: &Source, key: &[char]) -> (r: Option<usize>)
        requires
            all_fit(self@, source@.len()),
        ensures
            match r {
                Some(j) => j as int == last_match(self@, source@, key@),
                None => last_match(self@, source@, key@) == -1,
            },
    {
        let ghost src = source@;
        let mut i: usize = self.items.len();
        proof {
            assert(self@.subrange(0, i as int) =~= self@);
        }
        while i > 0
            invariant
                i <= self@.len(),
                all_fit(self@, src.len()),
                src == source@,
                last_match(self@, src, key@) == last_match(self@.subrange(0, i as int), src, key@),
            decreases i,
        {
            let ghost pre = self@.subrange(0, i as int);
            proof {
                assert(pre.drop_last() =~= self@.subrange(0, i - 1));
                assert(self@[i - 1].fits(src.len()));
            }
            if let Item::Property(prop, _) = &self.items[i - 1] {
                if prop.key.eq_ignore_case(source, key) {
                    return Some(i - 1);
                }
            }
            i = i - 1;
        }
        None
    }

    /// Whether the section has a property keyed `key`, up to ASCII case.
    pub fn has(&self, source: &Source, key: &str) -> (r: bool)
        requires
            all_fit(self@, source@.len()),
        ensures
            r == (last_match(self@, source@, key@) >= 0),
    {
        let kc = chars_of(key);
        self.find_prop(source, kc.as_slice()).is_some()
    }

    pub(crate) fn get_chars<'a>(&'a self, source: &'a Source, key: &[char]) -> (r: Option<&'a str>)
        requires
            source.wf(),
            all_fit(self@, source@.len()),
        ensures
            opt_view(r) == get_value(self@, source@, key@),
    {
        match self.find_prop(source, key) {
            Some(j) => {
                proof {
                    lemma_last_match(self@, source@, key@);
                    assert(self@[j as int].fits(source@.len()));
                }
                match &self.items[j] {
                    Item::Property(prop, _) => Some(prop.value.of(source)),
                    _ => None,
                }
            },
            None => None,
        }
    }

    /// The value of the last property keyed `key`, up to ASCII case.
    pub fn get<'a>(&'a self, source: &'a Source, key: &str) -> (r: Option<&'a str>)
        requires
            source.wf(),
            all_fit(self@, source@.len()),
        ensures
            opt_view(r) == get_value(self@, source@, key@),
    {
        let kc = chars_of(key);
        self.get_chars(source, kc.as_slice())
    }

    /// Writes `value` over the last property keyed `key`, keeping its formatting; where there
    /// is none, gives `value` back.
    pub fn replace_chars(&mut self, source: &Source, key: &[char], value: String) -> (r: Option<String>)
        requires
            all_fit(old(self)@, source@.len()),
        ensures
            all_fit(final(self)@, source@.len()),
            last_match(old(self)@, source@, key@) >= 0 ==> r is None && value_replaced(
                old(self)@,
                final(self)@,
                last_match(old(self)@, source@, key@),
                value,
            ),
            last_match(old(self)@, source@, key@) < 0 ==> r == Some(value) && final(self)@ == old(
                self,
            )@,
    {
        match self.find_prop(source, key) {
            Some(j) => {
                proof {
                    lemma_last_match(self@, source@, key@);
                }
                let old_item = self.items.remove(j);
                let new_item = match old_item {
                    Item::Property(prop, pad) => Item::Property(
                        Prop { key: prop.key, value: Span::Owned(value) },
                        pad,
                    ),
                    other => other,
                };
                self.items.insert(j, new_item);
                proof {
                    assert(self@ =~= old(self)@.update(j as int, new_item));
                    assert(old(self)@[j as int].fits(source@.len()));
                    assert forall|i: int| 0 <= i < self@.len() implies #[trigger] self@[i].fits(
                        source@.len(),
                    ) by {
                        assert(old(self)@[i].fits(source@.len()));
                    }
                }
                None
            },
            None => Some(value),
        }
    }

    /// Writes `value` over the last property keyed `key`, keeping its formatting; where there
    /// is none, gives `value` back.
    pub fn replace(&mut self, source: &Source, key: &str, value: String) -> (r: Option<String>)
        requires
            all_fit(old(self)@, source@.len()),
        ensures
            all_fit(final(self)@, source@.len()),
            last_match(old(self)@, source@, key@) >= 0 ==> r is None && value_replaced(
                old(self)@,
                final(self)@,
                last_match(old(self)@, source@, key@),
                value,
            ),
            last_match(old(self)@, source@, key@) < 0 ==> r == Some(value) && final(self)@ == old(
                self,
            )@,
    {
        let kc = chars_of(key);
        self.replace_chars(source, kc.as_slice(), value)
    }

    pub(crate) fn set_chars(&mut self, source: &Source, key: &[char], value: String)
        requires
            all_fit(old(self)@, source@.len()),
        ensures
            all_fit(final(self)@, source@.len()),
            value_set(old(self)@, final(self)@, source@, key@, value),
    {
        let ghost old_value = value;
        match self.replace_chars(source, key, value) {
            None => {},
            Some(value) => {
                let nl = Span::owned("\n");
                let item = Item::Property(
                    Prop { key: Span::Owned(string_of(key)), value: Span::Owned(value) },
                    Padding4(Span::owned(""), Span::owned(""), Span::owned(""), nl),
                );
                proof {
                    reveal_strlit("");
                    reveal_strlit("\n");
                    assert(nl->Owned_0@ =~= seq!['\n']);
                    assert(fresh_prop(item, key@, old_value));
                }
                self.items.push(item);
                proof {
                    assert(self@.drop_last() =~= old(self)@);
                }
            },
        }
    }

    /// Writes `value` under `key`: over the last property with that key, keeping its
    /// formatting, or as a new `key=value` line at the end of the section.
    pub fn set(&mut self, source: &Source, key: &str, value: String)
        requires
            all_fit(old(self)@, source@.len()),
        ensures
            all_fit(final(self)@, source@.len()),
            value_set(old(self)@, final(self)@, source@, key@, value),
    {
        let kc = chars_of(key);
        self.set_chars(source, kc.as_slice(), value)
    }

    pub(crate) fn remove_chars(&mut self, source: &Source, key: &[char])
        requires
            all_fit(old(self)@, source@.len()),
        ensures
            all_fit(final(self)@, source@.len()),
            final(self)@ == without(old(self)@, source@, key@),
    {
        let ghost src = source@;
        let mut taken: Vec<Item> = Vec::new();
        std::mem::swap(&mut self.items, &mut taken);
        let ghost all = taken@;
        for it in iter: taken.into_iter()
            invariant
                all == old(self)@,
                iter.seq() == all,
                src == source@,
                all_fit(all, src.len()),
                self@ == without(all.subrange(0, iter.index() as int), src, key@),
        {
            proof {
                assert(all.subrange(0, iter.index() + 1).drop_last() =~= all.subrange(
                    0,
                    iter.index() as int,
                ));
                assert(all[iter.index() as int].fits(src.len()));
            }
            let keep = match &it {
                Item::Property(prop, _) => !prop.key.eq_ignore_case(source, key),
                _ => true,
            };
            if keep {
                self.items.push(it);
            }
        }
        proof {
            assert(all.subrange(0, all.len() as int) =~= all);
            lemma_without_fits(all, src, key@);
        }
    }

    /// Deletes every property keyed `key`, up to ASCII case.
    pub fn remove(&mut self, source: &Source, key: &str)
        requires
            all_fit(old(self)@, source@.len()),
        ensures
            all_fit(final(self)@, source@.len()),
            final(self)@ == without(old(self)@, source@, key@),
    {
        let kc = chars_of(key);
        self.remove_chars(source, kc.as_slice())
    }

    pub(crate) fn rename_chars(&mut self, source: &Source, from_key: &[char], to_key: &[char])
        requires
            all_fit(old(self)@, source@.len()),
        ensures
            relabeled(without(old(self)@, source@, to_key@), final(self)@, source@, from_key@, to_key@),
            all_fit(final(self)@, source@.len()),
    {
        let ghost src = source@;
        self.remove_chars(source, to_key);
        proof {
            lemma_without_fits(old(self)@, src, to_key@);
        }
        let ghost mid = self@;
        let mut i: usize = 0;
        while i < self.items.len()
            invariant
                src == source@,
                all_fit(mid, src.len()),
                all_fit(self@, src.len()),
                i <= self@.len(),
                self@.len() == mid.len(),
                forall|j: int| i <= j < mid.len() ==> self@[j] == mid[j],
                forall|j: int|
                    0 <= j < i ==> {
                        if prop_with(#[trigger] mid[j], src, from_key@) {
                            match (mid[j], self@[j]) {
                                (Item::Property(pa, pad1), Item::Property(pb, pad2)) => {
                                    &&& pad1 == pad2
                                    &&& pa.value == pb.value
                                    &&& pb.key matches Span::Owned(k) && k@ == to_key@
                                },
                                _ => false,
                            }
                        } else {
                            self@[j] == mid[j]
                        }
                    },
            decreases self@.len() - i,
        {
            proof {
                assert(self@[i as int].fits(src.len()));
            }
            let hit = match &self.items[i] {
                Item::Property(prop, _) => prop.key.eq_ignore_case(source, from_key),
                _ => false,
            };
            if hit {
                let old_item = self.items.remove(i);
                let new_item = match old_item {
                    Item::Property(prop, pad) => Item::Property(
                        Prop { key: Span::Owned(string_of(to_key)), value: prop.value },
                        pad,
                    ),
                    other => other,
                };
                self.items.insert(i, new_item);
            }
            i = i + 1;
        }
    }

    /// Deletes every property keyed `to_key`, then names `to_key` in every property keyed
    /// `from_key`. Values and formatting stay.
    pub fn rename(&mut self, source: &Source, from_key: &str, to_key: &str)
        requires
            all_fit(old(self)@, source@.len()),
        ensures
            relabeled(without(old(self)@, source@, to_key@), final(self)@, source@, from_key@, to_key@),
            all_fit(final(self)@, source@.len()),
    {
        let fc = chars_of(from_key);
        let tc = chars_of(to_key);
        self.rename_chars(source, fc.as_slice(), tc.as_slice())
    }

    /// The key and value of each property, in order.
    pub fn iter<'a>(&'a self, source: &'a Source) -> (r: Vec<(&'a str, &'a str)>)
        requires
            source.wf(),
            all_fit(self@, source@.len()),
        ensures
            pair_views(r@) == pairs(self@, source@),
    {
        let ghost src = source@;
        let mut r: Vec<(&'a str, &'a str)> = Vec::new();
        let mut i: usize = 0;
        while i < self.items.len()
            invariant
                src == source@,
                source.wf(),
                all_fit(self@, src.len()),
                i <= self@.len(),
                pair_views(r@) == pairs(self@.subrange(0, i as int), src),
            decreases self@.len() - i,
        {
            proof {
                assert(self@.subrange(0, i + 1).drop_last() =~= self@.subrange(0, i as int));
                assert(self@[i as int].fits(src.len()));
            }
            if let Item::Property(prop, _) = &self.items[i] {
                let pair = (prop.key.of(source), prop.value.of(source));
                let ghost before = r@;
                r.push(pair);
                proof {
                    assert(pair_views(r@) =~= pair_views(before).push((pair.0@, pair.1@)));
                }
            }
            i = i + 1;
        }
        proof {
            assert(self@.subrange(0, i as int) =~= self@);
        }
        r
    }

    /// Appends the section's text to `out`.
    pub fn push_to(&self, out: &mut String, source: &Source)
        requires
            all_fit(self@, source@.len()),
        ensures
            final(out)@ == old(out)@ + self.text(source@),
    {
        let ghost src = source@;
        let mut i: usize = 0;
        while i < self.items.len()
            invariant
                src == source@,
                all_fit(self@, src.len()),
                i <= self@.len(),
                out@ == old(out)@ + texts(self@.subrange(0, i as int), src),
            decreases self@.len() - i,
        {
            proof {
                assert(self@.subrange(0, i + 1).drop_last() =~= self@.subrange(0, i as int));
                assert(self@[i as int].fits(src.len()));
            }
            self.items[i].push_to(out, source);
            proof {
                assert(out@ =~= old(out)@ + texts(self@.subrange(0, i + 1), src));
            }
            i = i + 1;
        }
        proof {
            assert(self@.subrange(0, i as int) =~= self@);
        }
    }

    /// Whether the header names `key`, up to ASCII case.
    pub fn key_is(&self, source: &Source, key: &[char]) -> (r: bool)
        requires
            self.headed(),
            all_fit(self@, source@.len()),
        ensures
            r == eq_ic(self.key_of(source@), key@),
    {
        proof {
            assert(self@[0].fits(source@.len()));
        }
        match &self.items[0] {
            Item::Section(k, _) => k.eq_ignore_case(source, key),
            _ => false,
        }
    }
}

} // verus!
