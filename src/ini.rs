use vstd::prelude::*;

use crate::group::{
    group, group_get, group_get_in, group_remove_in, group_rename_in, group_set_in,
    group_set_key_in, idx, items_of, keys_of, members, positions, secs_fit, secs_headed,
    valid_positions, write_target, among,
};
use crate::item::{Item, Padding};
use crate::parse::{all_fit, lemma_items_from, lemma_texts_concat, parse, texts, Parser};
use crate::section::ConcreteSection;
use crate::span::{Source, Span};
use crate::view::{borrow_indices, VirtualSection, VirtualSectionMut};
use crate::text::eq_ic;

verus! {

/// The items of all the sections, one section after another.
pub open spec fn concat_items(ss: Seq<Seq<Item>>) -> Seq<Item>
    decreases ss.len(),
{
    if ss.len() == 0 {
        seq![]
    } else {
        concat_items(ss.drop_last()) + ss.last()
    }
}

/// The text of all the sections, one section after another.
pub open spec fn all_texts(ss: Seq<Seq<Item>>, src: Seq<char>) -> Seq<char>
    decreases ss.len(),
{
    if ss.len() == 0 {
        seq![]
    } else {
        all_texts(ss.drop_last(), src) + texts(ss.last(), src)
    }
}

pub proof fn lemma_all_texts(ss: Seq<Seq<Item>>, src: Seq<char>)
    ensures
        texts(concat_items(ss), src) == all_texts(ss, src),
    decreases ss.len(),
{
    if ss.len() > 0 {
        lemma_all_texts(ss.drop_last(), src);
        lemma_texts_concat(concat_items(ss.drop_last()), ss.last(), src);
    } else {
        assert(texts(Seq::<Item>::empty(), src) == Seq::<char>::empty());
    }
}

/// No item of `items` is a header.
pub open spec fn headerless(items: Seq<Item>) -> bool {
    forall|i: int| 0 <= i < items.len() ==> !(#[trigger] items[i] is Section)
}

/// Only the first item of `items` is a header.
pub open spec fn one_header(items: Seq<Item>) -> bool {
    items.len() > 0 && items[0] is Section && headerless(items.drop_first())
}

/// A document: the text before the first header, then its sections in the order of the text.
pub struct Ini {
    source: Source,
    global_section: ConcreteSection,
    sections: Vec<ConcreteSection>,
    section_index: Vec<(Vec<char>, Vec<usize>)>,
}

impl Ini {
    /// The text the document was read from.
    pub closed spec fn src(&self) -> Seq<char> {
        self.source@
    }

    /// The items before the first header.
    pub closed spec fn global(&self) -> Seq<Item> {
        self.global_section@
    }

    /// The sections, in the order of the text.
    pub closed spec fn secs(&self) -> Seq<ConcreteSection> {
        self.sections@
    }

    /// The items of each section.
    pub open spec fn items(&self) -> Seq<Seq<Item>> {
        items_of(self.secs())
    }

    /// The key each section's header names.
    pub open spec fn keys(&self) -> Seq<Seq<char>> {
        keys_of(self.secs(), self.src())
    }

    /// Positions of the sections keyed `key`, up to ASCII case.
    pub open spec fn group_of(&self, key: Seq<char>) -> Seq<int> {
        group(self.keys(), key)
    }

    /// The items of the sections keyed `key`, in the order of the text.
    pub open spec fn members_of(&self, key: Seq<char>) -> Seq<Seq<Item>> {
        members(self.items(), self.group_of(key))
    }

    /// The value of `key` in the sections keyed `section_key`.
    pub open spec fn value_in(&self, section_key: Seq<char>, key: Seq<char>) -> Option<Seq<char>> {
        group_get(self.members_of(section_key), self.src(), key)
    }

    /// The document's text.
    pub open spec fn text(&self) -> Seq<char> {
        texts(self.global(), self.src()) + all_texts(self.items(), self.src())
    }

    /// The index holds, for each key, the positions of the sections it names.
    closed spec fn index_ok(&self) -> bool {
        index_matches(self.section_index@, self.keys(), self.keys().len() as int)
    }

    pub closed spec fn wf(&self) -> bool {
        &&& self.source.wf()
        &&& all_fit(self.global(), self.src().len())
        &&& secs_fit(self.secs(), self.src().len())
        &&& secs_headed(self.secs())
        &&& self.index_ok()
    }
}

/// `index` holds, for each key among the first `n`, the positions below `n` of the keys equal to
/// it up to ASCII case; no two of its keys are equal that way.
pub open spec fn index_matches(index: Seq<(Vec<char>, Vec<usize>)>, keys: Seq<Seq<char>>, n: int) -> bool {
    &&& forall|g: int|
        0 <= g < index.len() ==> idx((#[trigger] index[g]).1@) == positions(keys, index[g].0@, n)
            && index[g].1@.len() > 0
    &&& forall|i: int|
        0 <= i < n ==> exists|g: int| 0 <= g < index.len() && eq_ic(#[trigger] keys[i], index[g].0@)
    &&& forall|g: int, h: int|
        0 <= g < index.len() && 0 <= h < index.len() && g != h ==> !eq_ic(
            (#[trigger] index[g]).0@,
            (#[trigger] index[h]).0@,
        )
}

pub proof fn lemma_positions_valid(keys: Seq<Seq<char>>, k: Seq<char>, n: int)
    requires
        0 <= n <= keys.len(),
    ensures
        forall|t: int|
            0 <= t < positions(keys, k, n).len() ==> 0 <= #[trigger] positions(keys, k, n)[t] < n,
        forall|s: int, t: int|
            0 <= s < t < positions(keys, k, n).len() ==> positions(keys, k, n)[s] < positions(
                keys,
                k,
                n,
            )[t],
        forall|t: int|
            0 <= t < positions(keys, k, n).len() ==> eq_ic(
                keys[#[trigger] positions(keys, k, n)[t]],
                k,
            ),
    decreases n,
{
    if n > 0 {
        lemma_positions_valid(keys, k, n - 1);
        let p = positions(keys, k, n - 1);
        if eq_ic(keys[n - 1], k) {
            let q = p.push(n - 1);
            assert forall|t: int| 0 <= t < q.len() implies 0 <= #[trigger] q[t] < n && eq_ic(keys[q[t]], k) by {
                if t < p.len() {
                    assert(q[t] == p[t]);
                }
            }
            assert forall|s: int, t: int| 0 <= s < t < q.len() implies q[s] < q[t] by {
                assert(q[s] == p[s]);
                if t < p.len() {
                    assert(q[t] == p[t]);
                }
            }
        }
    }
}

pub proof fn lemma_positions_none(keys: Seq<Seq<char>>, k: Seq<char>, n: int)
    requires
        0 <= n <= keys.len(),
        forall|i: int| 0 <= i < n ==> !eq_ic(#[trigger] keys[i], k),
    ensures
        positions(keys, k, n) == Seq::<int>::empty(),
    decreases n,
{
    if n > 0 {
        lemma_positions_none(keys, k, n - 1);
    }
}

pub proof fn lemma_positions_same(keys: Seq<Seq<char>>, a: Seq<char>, b: Seq<char>, n: int)
    requires
        eq_ic(a, b),
    ensures
        positions(keys, a, n) == positions(keys, b, n),
    decreases n,
{
    if n > 0 {
        lemma_positions_same(keys, a, b, n - 1);
    }
}

pub proof fn lemma_positions_prefix(k1: Seq<Seq<char>>, k2: Seq<char>, keys2: Seq<Seq<char>>, n: int)
    requires
        0 <= n <= k1.len(),
        n <= keys2.len(),
        forall|i: int| 0 <= i < n ==> k1[i] == keys2[i],
    ensures
        positions(k1, k2, n) == positions(keys2, k2, n),
    decreases n,
{
    if n > 0 {
        lemma_positions_prefix(k1, k2, keys2, n - 1);
    }
}

/// Valid positions, as stored.
pub proof fn lemma_stored_positions(v: Seq<usize>, keys: Seq<Seq<char>>, k: Seq<char>, n: int)
    requires
        0 <= n <= keys.len(),
        idx(v) == positions(keys, k, n),
    ensures
        valid_positions(v, n as nat),
{
    lemma_positions_valid(keys, k, n);
    assert forall|t: int| 0 <= t < v.len() implies #[trigger] v[t] < n by {
        assert(idx(v)[t] == v[t] as int);
    }
    assert forall|s: int, t: int| 0 <= s < t < v.len() implies v[s] < v[t] by {
        assert(idx(v)[t] == v[t] as int);
        assert(idx(v)[s] == v[s] as int);
    }
}

/// Groups the positions of `sections` by key, up to ASCII case.
fn build_section_index(sections: &Vec<ConcreteSection>, source: &Source) -> (r: Vec<(Vec<char>, Vec<usize>)>)
    requires
        source.wf(),
        secs_fit(sections@, source@.len()),
        secs_headed(sections@),
    ensures
        index_matches(r@, keys_of(sections@, source@), sections@.len() as int),
{
    let ghost keys = keys_of(sections@, source@);
    let mut index: Vec<(Vec<char>, Vec<usize>)> = Vec::new();
    let mut i: usize = 0;
    while i < sections.len()
        invariant
            source.wf(),
            i <= sections@.len(),
            keys == keys_of(sections@, source@),
            secs_fit(sections@, source@.len()),
            secs_headed(sections@),
            index_matches(index@, keys, i as int),
        decreases sections@.len() - i,
    {
        proof {
            assert(all_fit(sections@[i as int]@, source@.len()));
            assert(sections@[i as int].headed());
        }
        let key = crate::text::chars_of(sections[i].key(source));
        proof {
            assert(key@ == keys[i as int]);
        }
        let mut g: usize = 0;
        let mut found = false;
        while g < index.len()
            invariant_except_break
                !found,
            invariant
                g <= index@.len(),
                forall|h: int| 0 <= h < g ==> !eq_ic(#[trigger] index@[h].0@, key@),
            ensures
                g <= index@.len(),
                found ==> g < index@.len() && eq_ic(index@[g as int].0@, key@),
                !found ==> g == index@.len(),
                forall|h: int| 0 <= h < g ==> !eq_ic(#[trigger] index@[h].0@, key@),
            decreases index@.len() - g,
        {
            if crate::text::slice_eq_ic(index[g].0.as_slice(), key.as_slice()) {
                found = true;
                break;
            }
            g = g + 1;
        }
        let ghost before = index@;
        if found {
            let mut entry = index.remove(g);
            entry.1.push(i);
            index.insert(g, entry);
        } else {
            let mut ps: Vec<usize> = Vec::new();
            ps.push(i);
            index.push((key, ps));
        }
        proof {
            assert forall|h: int| 0 <= h < index@.len() implies idx((#[trigger] index@[h]).1@)
                == positions(keys, index@[h].0@, i + 1) && index@[h].1@.len() > 0 by {
                if found && h == g {
                    assert(idx(index@[h].1@) =~= idx(before[h].1@).push(i as int));
                } else if h < before.len() {
                    assert(index@[h] == before[h]);
                    if eq_ic(keys[i as int], index@[h].0@) {
                        assert(found && eq_ic(before[g as int].0@, key@));
                        assert(eq_ic(before[g as int].0@, before[h].0@));
                    }
                } else {
                    assert(idx(index@[h].1@) =~= seq![i as int]);
                    assert(eq_ic(keys[i as int], keys[i as int]));
                    assert forall|j: int| 0 <= j < i implies !eq_ic(#[trigger] keys[j], keys[i as int]) by {
                        let h = choose|h: int| 0 <= h < before.len() && eq_ic(#[trigger] keys[j], before[h].0@);
                        assert(!eq_ic(before[h].0@, key@));
                    }
                    lemma_positions_none(keys, keys[i as int], i as int);
                }
            }
            assert forall|j: int| 0 <= j < i + 1 implies exists|h: int|
                0 <= h < index@.len() && eq_ic(#[trigger] keys[j], index@[h].0@) by {
                if j < i {
                    let h = choose|h: int| 0 <= h < before.len() && eq_ic(#[trigger] keys[j], before[h].0@);
                    assert(index@[h].0@ == before[h].0@);
                } else if found {
                    assert(index@[g as int].0@ == before[g as int].0@);
                } else {
                    assert(eq_ic(keys[j], index@[before.len() as int].0@));
                }
            }
            assert forall|h1: int, h2: int|
                0 <= h1 < index@.len() && 0 <= h2 < index@.len() && h1 != h2 implies !eq_ic(
                (#[trigger] index@[h1]).0@,
                (#[trigger] index@[h2]).0@,
            ) by {
                if !found {
                    if h1 == before.len() {
                        assert(index@[h2] == before[h2]);
                    } else if h2 == before.len() {
                        assert(index@[h1] == before[h1]);
                    } else {
                        assert(index@[h1] == before[h1]);
                        assert(index@[h2] == before[h2]);
                    }
                } else {
                    assert(index@[h1].0@ == before[h1].0@);
                    assert(index@[h2].0@ == before[h2].0@);
                }
            }
        }
        i = i + 1;
    }
    index
}

impl Ini {
    /// Reads `source`. Reading never fails: a line that cannot be read is kept as it is.
    pub fn new(source: &str) -> (r: Ini)
        ensures
            r.wf(),
            r.src() == source@,
            r.global() + concat_items(r.items()) == parse(source@),
            headerless(r.global()),
            forall|i: int| 0 <= i < r.items().len() ==> one_header(#[trigger] r.items()[i]),
            r.text() == source@,
    {
        let source = Source::new(source);
        let items = {
            let mut parser = Parser::new(&source);
            parser.collect_items()
        };
        let ghost src = source@;
        proof {
            lemma_items_from(src, 0);
        }
        let mut global_section = ConcreteSection::new_global();
        let mut sections: Vec<ConcreteSection> = Vec::new();
        let ghost all = items@;
        for item in it: items.into_iter()
            invariant
                it.seq() == all,
                all == parse(src),
                all_fit(all, src.len()),
                global_section@ + concat_items(items_of(sections@)) == all.subrange(
                    0,
                    it.index() as int,
                ),
                headerless(global_section@),
                sections@.len() == 0 ==> global_section@ == all.subrange(0, it.index() as int),
                forall|i: int| 0 <= i < sections@.len() ==> one_header(#[trigger] sections@[i]@),
                all_fit(global_section@, src.len()),
                secs_fit(sections@, src.len()),
        {
            let ghost k = it.index() as int;
            let ghost gs = global_section@;
            let ghost ss = sections@;
            proof {
                assert(all.subrange(0, k + 1) =~= all.subrange(0, k).push(item));
                assert(all[k].fits(src.len()));
            }
            if let Item::Section(..) = &item {
                sections.push(ConcreteSection::new(item));
                proof {
                    assert(items_of(sections@) =~= items_of(ss).push(seq![item]));
                    assert(items_of(sections@).drop_last() =~= items_of(ss));
                    assert(seq![item].drop_first() =~= Seq::<Item>::empty());
                    assert(one_header(sections@[ss.len() as int]@));
                    assert forall|i: int| 0 <= i < sections@.len() implies all_fit(
                        #[trigger] sections@[i]@,
                        src.len(),
                    ) by {
                        if i < ss.len() {
                            assert(sections@[i] == ss[i]);
                        }
                    }
                }
            } else if sections.len() == 0 {
                global_section.push_item(item);
                proof {
                    assert(items_of(sections@) =~= Seq::<Seq<Item>>::empty());
                    assert forall|i: int| 0 <= i < global_section@.len() implies !(
                    #[trigger] global_section@[i] is Section) by {
                        if i < gs.len() {
                            assert(global_section@[i] == gs[i]);
                        }
                    }
                }
            } else {
                let last = sections.len() - 1;
                sections[last].push_item(item);
                proof {
                    let before = ss[last as int]@;
                    let after = sections@[last as int]@;
                    assert(items_of(sections@).drop_last() =~= items_of(ss).drop_last());
                    assert(items_of(sections@).last() == after);
                    assert(items_of(ss).last() == before);
                    assert(one_header(after)) by {
                        assert(one_header(before));
                        assert forall|i: int| 0 <= i < after.drop_first().len() implies !(
                        #[trigger] after.drop_first()[i] is Section) by {
                            if i < before.drop_first().len() {
                                assert(after.drop_first()[i] == before.drop_first()[i]);
                            }
                        }
                    }
                    assert forall|i: int| 0 <= i < sections@.len() implies one_header(
                        #[trigger] sections@[i]@,
                    ) by {
                        if i != last {
                            assert(sections@[i] == ss[i]);
                        }
                    }
                    assert forall|i: int| 0 <= i < sections@.len() implies all_fit(
                        #[trigger] sections@[i]@,
                        src.len(),
                    ) by {
                        if i != last {
                            assert(sections@[i] == ss[i]);
                        } else {
                            assert forall|j: int| 0 <= j < after.len() implies #[trigger] after[j].fits(src.len()) by {
                                if j < before.len() {
                                    assert(after[j] == before[j]);
                                    assert(ss[i]@ == before);
                                }
                            }
                        }
                    }
                }
            }
        }
        proof {
            assert(all.subrange(0, all.len() as int) =~= all);
            assert(secs_headed(sections@)) by {
                assert forall|i: int| 0 <= i < sections@.len() implies (#[trigger] sections@[i]).headed() by {
                    assert(one_header(sections@[i]@));
                }
            }
            lemma_texts_concat(global_section@, concat_items(items_of(sections@)), src);
            lemma_all_texts(items_of(sections@), src);
        }
        let section_index = build_section_index(&sections, &source);
        Ini { source, global_section, sections, section_index }
    }

    /// The document's text: unchanged lines as they were read, changed ones as they were set.
    pub fn to_string(&self) -> (r: String)
        requires
            self.wf(),
        ensures
            r@ == self.text(),
    {
        let mut out = String::new();
        self.global_section.push_to(&mut out, &self.source);
        let ghost src = self.src();
        let mut i: usize = 0;
        while i < self.sections.len()
            invariant
                self.wf(),
                src == self.src(),
                i <= self.secs().len(),
                out@ == texts(self.global(), src) + all_texts(self.items().subrange(0, i as int), src),
            decreases self.secs().len() - i,
        {
            proof {
                assert(all_fit(self.secs()[i as int]@, src.len()));
                assert(self.items().subrange(0, i + 1).drop_last() =~= self.items().subrange(0, i as int));
                assert(self.items()[i as int] == self.secs()[i as int]@);
            }
            self.sections[i].push_to(&mut out, &self.source);
            proof {
                assert(out@ =~= texts(self.global(), src) + all_texts(self.items().subrange(0, i + 1), src));
            }
            i = i + 1;
        }
        proof {
            assert(self.items().subrange(0, i as int) =~= self.items());
        }
        out
    }
}

/// The header of a section made for `key`: `[key]` ended by `\n`.
pub open spec fn fresh_header(it: Item, key: Seq<char>) -> bool {
    match it {
        Item::Section(Span::Owned(k), Padding(Span::Owned(a), Span::Owned(b))) => k@ == key && a@.len()
            == 0 && b@ == seq!['\n'],
        _ => false,
    }
}

/// Whether position `i` is among `ps`.
pub proof fn lemma_among_idx(ps: Seq<usize>, i: int)
    ensures
        among(ps, ps.len() as int, i) <==> idx(ps).contains(i),
{
    if among(ps, ps.len() as int, i) {
        let k = choose|k: int| 0 <= k < ps.len() && #[trigger] ps[k] as int == i;
        assert(idx(ps)[k] == i);
    }
    if idx(ps).contains(i) {
        let k = choose|k: int| 0 <= k < idx(ps).len() && idx(ps)[k] == i;
        assert(ps[k] as int == i);
    }
}

impl Ini {
    /// Which entry of the index holds the sections keyed `key`.
    fn find_group(&self, key: &[char]) -> (r: Option<usize>)
        requires
            self.wf(),
        ensures
            match r {
                Some(g) => g < self.section_index@.len() && idx(self.section_index@[g as int].1@)
                    == self.group_of(key@) && valid_positions(
                    self.section_index@[g as int].1@,
                    self.secs().len(),
                ),
                None => self.group_of(key@) == Seq::<int>::empty() && forall|g: int|
                    0 <= g < self.section_index@.len() ==> !eq_ic(
                        #[trigger] self.section_index@[g].0@,
                        key@,
                    ),
            },
    {
        let ghost keys = self.keys();
        let mut g: usize = 0;
        while g < self.section_index.len()
            invariant
                self.wf(),
                keys == self.keys(),
                g <= self.section_index@.len(),
                forall|h: int| 0 <= h < g ==> !eq_ic(#[trigger] self.section_index@[h].0@, key@),
            decreases self.section_index@.len() - g,
        {
            if crate::text::slice_eq_ic(self.section_index[g].0.as_slice(), key) {
                proof {
                    let k = self.section_index@[g as int].0@;
                    lemma_positions_same(keys, k, key@, keys.len() as int);
                    lemma_stored_positions(self.section_index@[g as int].1@, keys, k, keys.len() as int);
                }
                return Some(g);
            }
            g = g + 1;
        }
        proof {
            assert forall|i: int| 0 <= i < keys.len() implies !eq_ic(#[trigger] keys[i], key@) by {
                let h = choose|h: int|
                    0 <= h < self.section_index@.len() && eq_ic(#[trigger] keys[i], self.section_index@[h].0@);
                assert(!eq_ic(self.section_index@[h].0@, key@));
            }
            lemma_positions_none(keys, key@, keys.len() as int);
        }
        None
    }

    /// Whether some section is keyed `key`, up to ASCII case.
    pub fn has_section(&self, key: &str) -> (r: bool)
        requires
            self.wf(),
        ensures
            r == (self.group_of(key@).len() > 0),
    {
        let kc = crate::text::chars_of(key);
        match self.find_group(kc.as_slice()) {
            Some(g) => self.section_index[g].1.len() > 0,
            None => false,
        }
    }

    /// The value of `prop_key` in the sections keyed `section_key`: that of the latest section
    /// that has the key.
    pub fn get_in(&self, section_key: &str, prop_key: &str) -> (r: Option<&str>)
        requires
            self.wf(),
        ensures
            crate::section::opt_view(r) == self.value_in(section_key@, prop_key@),
    {
        let sc = crate::text::chars_of(section_key);
        let kc = crate::text::chars_of(prop_key);
        match self.find_group(sc.as_slice()) {
            Some(g) => group_get_in(&self.sections, &self.source, self.section_index[g].1.as_slice(), kc.as_slice()),
            None => {
                proof {
                    assert(self.members_of(section_key@) =~= Seq::<Seq<Item>>::empty());
                }
                None
            },
        }
    }

    /// Whether some section keyed `section_key` has a property keyed `prop_key`.
    pub fn has_in(&self, section_key: &str, prop_key: &str) -> (r: bool)
        requires
            self.wf(),
        ensures
            r == self.value_in(section_key@, prop_key@) is Some,
    {
        self.get_in(section_key, prop_key).is_some()
    }
}

impl Ini {
    /// The index entry for `key`, made together with a new empty section `[key]` at the end
    /// where no section is keyed `key`.
    fn ensure_group(&mut self, key: &str, kc: &[char]) -> (g: usize)
        requires
            old(self).wf(),
            kc@ == key@,
        ensures
            final(self).wf(),
            final(self).src() == old(self).src(),
            final(self).global() == old(self).global(),
            g < final(self).section_index@.len(),
            idx(final(self).section_index@[g as int].1@) == final(self).group_of(key@),
            valid_positions(final(self).section_index@[g as int].1@, final(self).secs().len()),
            old(self).group_of(key@).len() > 0 ==> *final(self) == *old(self),
            old(self).group_of(key@).len() == 0 ==> {
                &&& final(self).secs().len() == old(self).secs().len() + 1
                &&& final(self).secs().drop_last() == old(self).secs()
                &&& final(self).secs().last()@.len() == 1
                &&& fresh_header(final(self).secs().last()@[0], key@)
                &&& final(self).group_of(key@) == seq![old(self).secs().len() as int]
            },
    {
        if let Some(g) = self.find_group(kc) {
            proof {
                assert(self.section_index@[g as int].1@.len() > 0);
            }
            return g;
        }
        let ghost keys = self.keys();
        let ghost old_secs = self.secs();
        let ghost src = self.src();
        let header = Item::Section(Span::owned(key), Padding(Span::owned(""), Span::owned("\n")));
        proof {
            reveal_strlit("");
            reveal_strlit("\n");
            assert(fresh_header(header, key@)) by {
                assert(header->Section_1.1->Owned_0@ =~= seq!['\n']);
            }
        }
        let n = self.sections.len();
        self.sections.push(ConcreteSection::new(header));
        let mut ps: Vec<usize> = Vec::new();
        ps.push(n);
        let kv = crate::text::chars_of(key);
        let ghost before = self.section_index@;
        let g = self.section_index.len();
        self.section_index.push((kv, ps));
        proof {
            let keys2 = self.keys();
            assert(self.secs().drop_last() =~= old_secs);
            assert(forall|i: int| 0 <= i < n ==> keys2[i] == keys[i]);
            assert(keys2[n as int] == key@);
            assert forall|i: int| 0 <= i < self.secs().len() implies all_fit(
                #[trigger] self.secs()[i]@,
                src.len(),
            ) by {
                if i < n {
                    assert(self.secs()[i] == old_secs[i]);
                } else {
                    assert(self.secs()[i]@ == seq![header]);
                }
            }
            assert forall|i: int| 0 <= i < self.secs().len() implies (#[trigger] self.secs()[i]).headed() by {
                if i < n {
                    assert(self.secs()[i] == old_secs[i]);
                }
            }
            lemma_positions_prefix(keys2, key@, keys, n as int);
            assert(forall|i: int| 0 <= i < n ==> !eq_ic(#[trigger] keys[i], key@)) by {
                lemma_positions_valid(keys, key@, n as int);
                assert forall|i: int| 0 <= i < n implies !eq_ic(#[trigger] keys[i], key@) by {
                    if eq_ic(keys[i], key@) {
                        lemma_positions_has(keys, key@, n as int, i);
                    }
                }
            }
            lemma_positions_none(keys, key@, n as int);
            assert(positions(keys2, key@, n + 1) =~= seq![n as int]);
            assert forall|h: int| 0 <= h < self.section_index@.len() implies idx(
                (#[trigger] self.section_index@[h]).1@,
            ) == positions(keys2, self.section_index@[h].0@, keys2.len() as int)
                && self.section_index@[h].1@.len() > 0 by {
                if h < before.len() {
                    let k = before[h].0@;
                    assert(self.section_index@[h] == before[h]);
                    assert(!eq_ic(keys2[n as int], k)) by {
                        if eq_ic(keys2[n as int], k) {
                            assert(before[h].1@.len() > 0 ==> eq_ic(keys[before[h].1@[0] as int], k));
                            lemma_entry_not_key(before, keys, h, key@, n as int);
                        }
                    }
                    lemma_positions_prefix(keys2, k, keys, n as int);
                } else {
                    assert(idx(self.section_index@[h].1@) =~= seq![n as int]);
                }
            }
            assert forall|i: int| 0 <= i < keys2.len() implies exists|h: int|
                0 <= h < self.section_index@.len() && eq_ic(
                    #[trigger] keys2[i],
                    self.section_index@[h].0@,
                ) by {
                if i < n {
                    let h = choose|h: int| 0 <= h < before.len() && eq_ic(#[trigger] keys[i], before[h].0@);
                    assert(self.section_index@[h] == before[h]);
                } else {
                    assert(eq_ic(keys2[i], self.section_index@[before.len() as int].0@));
                }
            }
            assert forall|h1: int, h2: int|
                0 <= h1 < self.section_index@.len() && 0 <= h2 < self.section_index@.len() && h1
                    != h2 implies !eq_ic(
                (#[trigger] self.section_index@[h1]).0@,
                (#[trigger] self.section_index@[h2]).0@,
            ) by {
                if h1 == before.len() {
                    assert(self.section_index@[h2] == before[h2]);
                    lemma_entry_not_key(before, keys, h2, key@, n as int);
                } else if h2 == before.len() {
                    assert(self.section_index@[h1] == before[h1]);
                    lemma_entry_not_key(before, keys, h1, key@, n as int);
                } else {
                    assert(self.section_index@[h1] == before[h1]);
                    assert(self.section_index@[h2] == before[h2]);
                }
            }
            lemma_stored_positions(ps@, keys2, key@, keys2.len() as int);
        }
        g
    }
}

/// An index entry whose key matched `key` would hold the positions of `key`.
proof fn lemma_entry_not_key(
    index: Seq<(Vec<char>, Vec<usize>)>,
    keys: Seq<Seq<char>>,
    h: int,
    key: Seq<char>,
    n: int,
)
    requires
        n == keys.len(),
        index_matches(index, keys, n),
        0 <= h < index.len(),
        positions(keys, key, n) == Seq::<int>::empty(),
        idx(index[h].1@).len() > 0,
    ensures
        !eq_ic(index[h].0@, key),
{
    if eq_ic(index[h].0@, key) {
        lemma_positions_same(keys, index[h].0@, key, n);
    }
}

proof fn lemma_positions_has(keys: Seq<Seq<char>>, k: Seq<char>, n: int, i: int)
    requires
        0 <= i < n <= keys.len(),
        eq_ic(keys[i], k),
    ensures
        positions(keys, k, n).contains(i),
    decreases n,
{
    if i < n - 1 {
        lemma_positions_has(keys, k, n - 1, i);
        let p = positions(keys, k, n - 1);
        let j = choose|j: int| 0 <= j < p.len() && p[j] == i;
        if eq_ic(keys[n - 1], k) {
            assert(p.push(n - 1)[j] == i);
        }
    } else {
        assert(positions(keys, k, n).last() == i);
    }
}

/// The sections after a write of `value` under `key` into the sections keyed `section_key`.
pub open spec fn written(
    before: Seq<Seq<Item>>,
    after: Seq<Seq<Item>>,
    ps: Seq<int>,
    src: Seq<char>,
    section_key: Seq<char>,
    key: Seq<char>,
    value: String,
) -> bool {
    if ps.len() > 0 {
        let j = ps[write_target(members(before, ps), src, key)];
        &&& after.len() == before.len()
        &&& forall|i: int| 0 <= i < before.len() && i != j ==> #[trigger] after[i] == before[i]
        &&& crate::section::value_set(before[j], after[j], src, key, value)
    } else {
        &&& after.len() == before.len() + 1
        &&& after.drop_last() == before
        &&& after.last().len() == 2
        &&& fresh_header(after.last()[0], section_key)
        &&& crate::section::fresh_prop(after.last()[1], key, value)
    }
}

impl Ini {
    /// Writes `value` under `prop_key` in the sections keyed `section_key`: over the latest
    /// of them but the first that has the key; else in the first of them; else in a new section
    /// `[section_key]` at the end.
    pub fn set_in(&mut self, section_key: &str, prop_key: &str, value: String)
        requires
            old(self).wf(),
        ensures
            final(self).wf(),
            final(self).src() == old(self).src(),
            final(self).global() == old(self).global(),
            written(
                old(self).items(),
                final(self).items(),
                old(self).group_of(section_key@),
                old(self).src(),
                section_key@,
                prop_key@,
                value,
            ),
    {
        let sc = crate::text::chars_of(section_key);
        let kc = crate::text::chars_of(prop_key);
        let ghost old_items = self.items();
        let ghost old_keys = self.keys();
        let ghost src = self.src();
        let g = self.ensure_group(section_key, sc.as_slice());
        let ghost mid = self.secs();
        let ghost ps = self.section_index@[g as int].1@;
        group_set_in(
            &mut self.sections,
            &self.source,
            self.section_index[g].1.as_slice(),
            kc.as_slice(),
            value,
        );
        proof {
            let ms = members(items_of(mid), idx(ps));
            let j = ps[write_target(ms, src, prop_key@)] as int;
            crate::group::lemma_target_range(ms, src, prop_key@);
            assert(idx(ps)[write_target(ms, src, prop_key@)] == j);
            assert forall|i: int| 0 <= i < mid.len() && i != j implies #[trigger] self.items()[i]
                == items_of(mid)[i] by {
                assert(!seq![j].contains(i)) by {
                    if seq![j].contains(i) {
                        assert(seq![j][0] == j);
                    }
                }
            }
            if old(self).group_of(section_key@).len() > 0 {
                assert(items_of(mid) == old_items);
            } else {
                let n = old_items.len() as int;
                assert(idx(ps) == seq![n]);
                assert(ps.len() == 1);
                assert(ms.len() == 1);
                assert(j == n);
                assert(items_of(mid).drop_last() =~= old_items);
                assert(items_of(mid)[n] == seq![items_of(mid)[n][0]]);
                assert(items_of(mid)[n] == mid[n]@);
                assert(mid[n]@[0] is Section);
                assert(crate::section::last_match(items_of(mid)[n], src, prop_key@) == -1) by {
                    assert(items_of(mid)[n].drop_last() =~= Seq::<Item>::empty());
                    assert(crate::section::last_match(Seq::<Item>::empty(), src, prop_key@) == -1);
                    assert(!crate::section::prop_with(items_of(mid)[n].last(), src, prop_key@));
                }
                assert(self.items().drop_last() =~= old_items);
                assert(self.items().last() == self.items()[n]);
                let after = self.items()[n];
                assert(after.drop_last() == items_of(mid)[n]);
                assert(after[0] == items_of(mid)[n][0]);
                assert(after[1] == after.last());
            }
        }
    }
}

impl Ini {
    /// Deletes every property keyed `prop_key` from every section keyed `section_key`.
    pub fn remove_in(&mut self, section_key: &str, prop_key: &str)
        requires
            old(self).wf(),
        ensures
            final(self).wf(),
            final(self).src() == old(self).src(),
            final(self).global() == old(self).global(),
            final(self).items().len() == old(self).items().len(),
            forall|i: int|
                0 <= i < old(self).items().len() ==> #[trigger] final(self).items()[i] == if old(
                    self,
                ).group_of(section_key@).contains(i) {
                    crate::section::without(old(self).items()[i], old(self).src(), prop_key@)
                } else {
                    old(self).items()[i]
                },
    {
        let sc = crate::text::chars_of(section_key);
        let kc = crate::text::chars_of(prop_key);
        if let Some(g) = self.find_group(sc.as_slice()) {
            let ghost ps = self.section_index@[g as int].1@;
            group_remove_in(
                &mut self.sections,
                &self.source,
                self.section_index[g].1.as_slice(),
                kc.as_slice(),
            );
            proof {
                assert forall|i: int| 0 <= i < old(self).items().len() implies #[trigger] self.items()[i]
                    == if old(self).group_of(section_key@).contains(i) {
                    crate::section::without(old(self).items()[i], old(self).src(), prop_key@)
                } else {
                    old(self).items()[i]
                } by {
                    lemma_among_idx(ps, i);
                    assert(self.items()[i] == self.secs()[i]@);
                    assert(old(self).items()[i] == old(self).secs()[i]@);
                }
            }
        }
    }

    /// In every section keyed `section_key`, deletes the properties keyed `to_key`, then names
    /// `to_key` in those keyed `from_key`.
    pub fn rename_in(&mut self, section_key: &str, from_key: &str, to_key: &str)
        requires
            old(self).wf(),
        ensures
            final(self).wf(),
            final(self).src() == old(self).src(),
            final(self).global() == old(self).global(),
            final(self).items().len() == old(self).items().len(),
            forall|i: int|
                0 <= i < old(self).items().len() ==> if old(self).group_of(section_key@).contains(i) {
                    crate::section::relabeled(
                        crate::section::without(old(self).items()[i], old(self).src(), to_key@),
                        #[trigger] final(self).items()[i],
                        old(self).src(),
                        from_key@,
                        to_key@,
                    )
                } else {
                    final(self).items()[i] == old(self).items()[i]
                },
    {
        let sc = crate::text::chars_of(section_key);
        let fc = crate::text::chars_of(from_key);
        let tc = crate::text::chars_of(to_key);
        if let Some(g) = self.find_group(sc.as_slice()) {
            let ghost ps = self.section_index@[g as int].1@;
            group_rename_in(
                &mut self.sections,
                &self.source,
                self.section_index[g].1.as_slice(),
                fc.as_slice(),
                tc.as_slice(),
            );
            proof {
                assert forall|i: int| 0 <= i < old(self).items().len() implies if old(self).group_of(
                    section_key@,
                ).contains(i) {
                    crate::section::relabeled(
                        crate::section::without(old(self).items()[i], old(self).src(), to_key@),
                        #[trigger] self.items()[i],
                        old(self).src(),
                        from_key@,
                        to_key@,
                    )
                } else {
                    self.items()[i] == old(self).items()[i]
                } by {
                    lemma_among_idx(ps, i);
                    assert(self.items()[i] == self.secs()[i]@);
                    assert(old(self).items()[i] == old(self).secs()[i]@);
                }
            }
        }
    }
}

/// `after` is the section `before` with its header naming `to` where `hit`, else `before` as
/// it was.
pub open spec fn key_set(before: Seq<Item>, after: Seq<Item>, hit: bool, to: Seq<char>) -> bool {
    if hit {
        &&& after.len() > 0
        &&& crate::section::header_renamed(before[0], after[0], to)
        &&& after.drop_first() == before.drop_first()
    } else {
        after == before
    }
}

/// The sections of `ss` whose header does not name `key`, up to ASCII case, in order.
pub open spec fn sections_without(ss: Seq<Seq<Item>>, src: Seq<char>, key: Seq<char>) -> Seq<Seq<Item>>
    decreases ss.len(),
{
    if ss.len() == 0 {
        ss
    } else if eq_ic(crate::section::header_key(ss.last()[0], src), key) {
        sections_without(ss.drop_last(), src, key)
    } else {
        sections_without(ss.drop_last(), src, key).push(ss.last())
    }
}

/// `after` is `before` with the header of each section keyed `from` naming `to` instead.
pub open spec fn sections_renamed(
    before: Seq<Seq<Item>>,
    after: Seq<Seq<Item>>,
    src: Seq<char>,
    from: Seq<char>,
    to: Seq<char>,
) -> bool {
    &&& after.len() == before.len()
    &&& forall|i: int|
        0 <= i < before.len() ==> if eq_ic(crate::section::header_key(before[i][0], src), from) {
            &&& crate::section::header_renamed(before[i][0], #[trigger] after[i][0], to)
            &&& after[i].drop_first() == before[i].drop_first()
        } else {
            after[i] == before[i]
        }
}

impl Ini {
    /// Deletes every section keyed `key`, up to ASCII case.
    pub fn remove_section(&mut self, key: &str)
        requires
            old(self).wf(),
        ensures
            final(self).wf(),
            final(self).src() == old(self).src(),
            final(self).global() == old(self).global(),
            final(self).items() == sections_without(old(self).items(), old(self).src(), key@),
    {
        let kc = crate::text::chars_of(key);
        let ghost src = self.src();
        let mut taken: Vec<ConcreteSection> = Vec::new();
        std::mem::swap(&mut self.sections, &mut taken);
        let ghost all = taken@;
        for section in it: taken.into_iter()
            invariant
                it.seq() == all,
                all == old(self).secs(),
                src == self.src(),
                self.source.wf(),
                self.global() == old(self).global(),
                all_fit(self.global(), src.len()),
                secs_fit(all, src.len()),
                secs_headed(all),
                secs_fit(self.secs(), src.len()),
                secs_headed(self.secs()),
                items_of(self.secs()) == sections_without(
                    items_of(all.subrange(0, it.index() as int)),
                    src,
                    kc@,
                ),
        {
            let ghost k = it.index() as int;
            let ghost before = self.secs();
            proof {
                assert(items_of(all.subrange(0, k + 1)).drop_last() =~= items_of(all.subrange(0, k)));
                assert(items_of(all.subrange(0, k + 1)).last() == all[k]@);
                assert(all_fit(all[k]@, src.len()));
                assert(all[k].headed());
            }
            if !section.key_is(&self.source, kc.as_slice()) {
                self.sections.push(section);
                proof {
                    assert(items_of(self.secs()) =~= items_of(before).push(all[k]@));
                    assert forall|i: int| 0 <= i < self.secs().len() implies all_fit(
                        #[trigger] self.secs()[i]@,
                        src.len(),
                    ) by {
                        if i < before.len() {
                            assert(self.secs()[i] == before[i]);
                        }
                    }
                    assert forall|i: int| 0 <= i < self.secs().len() implies (
                    #[trigger] self.secs()[i]).headed() by {
                        if i < before.len() {
                            assert(self.secs()[i] == before[i]);
                        }
                    }
                }
            }
        }
        proof {
            assert(all.subrange(0, all.len() as int) =~= all);
        }
        self.section_index = build_section_index(&self.sections, &self.source);
    }

    /// Deletes every section keyed `to_key`, then names `to_key` in the header of every section
    /// keyed `from_key`.
    pub fn rename_section(&mut self, from_key: &str, to_key: &str)
        requires
            old(self).wf(),
        ensures
            final(self).wf(),
            final(self).src() == old(self).src(),
            final(self).global() == old(self).global(),
            sections_renamed(
                sections_without(old(self).items(), old(self).src(), to_key@),
                final(self).items(),
                old(self).src(),
                from_key@,
                to_key@,
            ),
    {
        self.remove_section(to_key);
        let ghost mid = self.items();
        let ghost keys = self.keys();
        let ghost src = self.src();
        let fc = crate::text::chars_of(from_key);
        if let Some(g) = self.find_group(fc.as_slice()) {
            let ghost ps = self.section_index@[g as int].1@;
            group_set_key_in(&mut self.sections, &self.source, self.section_index[g].1.as_slice(), to_key);
            proof {
                lemma_positions_valid(keys, from_key@, keys.len() as int);
                assert forall|i: int| 0 <= i < mid.len() implies if eq_ic(
                    crate::section::header_key(mid[i][0], src),
                    from_key@,
                ) {
                    &&& crate::section::header_renamed(mid[i][0], #[trigger] self.items()[i][0], to_key@)
                    &&& self.items()[i].drop_first() == mid[i].drop_first()
                } else {
                    self.items()[i] == mid[i]
                } by {
                    lemma_among_idx(ps, i);
                    assert(keys[i] == crate::section::header_key(mid[i][0], src));
                    if eq_ic(keys[i], from_key@) {
                        lemma_positions_has(keys, from_key@, keys.len() as int, i);
                    } else if idx(ps).contains(i) {
                        let t = choose|t: int| 0 <= t < idx(ps).len() && idx(ps)[t] == i;
                        assert(eq_ic(keys[idx(ps)[t]], from_key@));
                    }
                    assert(self.items()[i] == self.secs()[i]@);
                }
                assert(self.items().len() == mid.len());
            }
            self.section_index = build_section_index(&self.sections, &self.source);
        } else {
            proof {
                assert forall|i: int| 0 <= i < mid.len() implies !eq_ic(
                    crate::section::header_key(mid[i][0], src),
                    from_key@,
                ) by {
                    assert(keys[i] == crate::section::header_key(mid[i][0], src));
                    if eq_ic(keys[i], from_key@) {
                        lemma_positions_has(keys, from_key@, keys.len() as int, i);
                    }
                }
            }
        }
    }
}

impl Ini {
    fn v_section<'a>(&'a self, indices: &[usize]) -> (r: VirtualSection<'a>)
        requires
            self.wf(),
            indices@.len() > 0,
            valid_positions(indices@, self.secs().len()),
        ensures
            r.wf(),
            r.src() == self.src(),
            r.members() == members(self.items(), idx(indices@)),
    {
        let sections = borrow_indices(self.sections.as_slice(), indices);
        proof {
            assert forall|t: int| 0 <= t < sections@.len() implies all_fit(
                #[trigger] sections@[t]@,
                self.src().len(),
            ) by {
                assert(*sections@[t] == self.secs()[indices@[t] as int]);
            }
            assert forall|t: int| 0 <= t < sections@.len() implies (#[trigger] sections@[t]).headed() by {
                assert(*sections@[t] == self.secs()[indices@[t] as int]);
            }
        }
        let r = VirtualSection::new(&self.source, sections);
        proof {
            assert(r.members() =~= members(self.items(), idx(indices@))) by {
                assert forall|t: int| 0 <= t < indices@.len() implies r.members()[t] == members(
                    self.items(),
                    idx(indices@),
                )[t] by {
                    assert(*sections@[t] == self.secs()[indices@[t] as int]);
                    assert(idx(indices@)[t] == indices@[t] as int);
                }
            }
        }
        r
    }

    /// Read-only view of the sections keyed `key`, up to ASCII case; `None` where there are none.
    pub fn section<'a>(&'a self, key: &str) -> (r: Option<VirtualSection<'a>>)
        requires
            self.wf(),
        ensures
            r is None <==> self.group_of(key@).len() == 0,
            r matches Some(v) ==> v.wf() && v.src() == self.src() && v.members() == self.members_of(
                key@,
            ),
    {
        let kc = crate::text::chars_of(key);
        match self.find_group(kc.as_slice()) {
            Some(g) => Some(self.v_section(self.section_index[g].1.as_slice())),
            None => None,
        }
    }

    fn v_section_mut<'a>(&'a mut self, g: usize) -> (r: VirtualSectionMut<'a>)
        requires
            old(self).wf(),
            g < old(self).section_index@.len(),
        ensures
            r.wf(),
            r.doc() == *old(self),
            r.positions() == idx(old(self).section_index@[g as int].1@),
            *final(r.ini) == *final(self),
    {
        let mut indices: Vec<usize> = Vec::new();
        let ps = &self.section_index[g].1;
        let mut t: usize = 0;
        proof {
            lemma_stored_positions(ps@, self.keys(), self.section_index@[g as int].0@, self.keys().len() as int);
        }
        while t < ps.len()
            invariant
                t <= ps@.len(),
                indices@ == ps@.subrange(0, t as int),
            decreases ps@.len() - t,
        {
            indices.push(ps[t]);
            proof {
                assert(indices@ =~= ps@.subrange(0, t + 1));
            }
            t = t + 1;
        }
        proof {
            assert(ps@.subrange(0, t as int) =~= ps@);
        }
        VirtualSectionMut::new(self, indices)
    }

    /// Writable view of the sections keyed `key`, up to ASCII case; `None` where there are none.
    pub fn section_mut<'a>(&'a mut self, key: &str) -> (r: Option<VirtualSectionMut<'a>>)
        requires
            old(self).wf(),
        ensures
            r is None <==> old(self).group_of(key@).len() == 0,
            r is None ==> *final(self) == *old(self),
            r matches Some(v) ==> v.wf() && v.doc() == *old(self) && v.positions() == old(
                self,
            ).group_of(key@) && *final(v.ini) == *final(self),
    {
        let kc = crate::text::chars_of(key);
        match self.find_group(kc.as_slice()) {
            Some(g) => Some(self.v_section_mut(g)),
            None => None,
        }
    }

    /// Writable view of the sections keyed `key`; where there are none, a new empty section
    /// `[key]` is first added at the end.
    pub fn append_section<'a>(&'a mut self, key: &str) -> (r: VirtualSectionMut<'a>)
        requires
            old(self).wf(),
        ensures
            r.wf(),
            *final(r.ini) == *final(self),
            r.positions() == r.doc().group_of(key@),
            r.doc().src() == old(self).src(),
            r.doc().global() == old(self).global(),
            old(self).group_of(key@).len() > 0 ==> r.doc() == *old(self) && r.positions() == old(
                self,
            ).group_of(key@),
            old(self).group_of(key@).len() == 0 ==> {
                &&& r.doc().items().len() == old(self).items().len() + 1
                &&& r.doc().items().drop_last() == old(self).items()
                &&& r.doc().items().last().len() == 1
                &&& fresh_header(r.doc().items().last()[0], key@)
                &&& r.positions() == seq![old(self).items().len() as int]
                &&& r.doc().text() == old(self).text() + seq!['['] + key@ + seq![']', '\n']
            },
    {
        let kc = crate::text::chars_of(key);
        let g = self.ensure_group(key, kc.as_slice());
        proof {
            if old(self).group_of(key@).len() == 0 {
                let items = self.items();
                let src = self.src();
                let h = items.last()[0];
                assert(items.last() =~= seq![h]);
                crate::parse::lemma_texts_one(h, src);
                assert(items.drop_last() == old(self).items());
                assert(h.text(src) =~= seq!['['] + key@ + seq![']', '\n']);
                assert(self.text() =~= old(self).text() + seq!['['] + key@ + seq![']', '\n']);
            }
        }
        self.v_section_mut(g)
    }
}

impl Ini {
    /// The key the header of the section at `i` names.
    pub(crate) fn key_at(&self, i: usize) -> (r: &str)
        requires
            self.wf(),
            i < self.secs().len(),
        ensures
            r@ == self.keys()[i as int],
    {
        proof {
            assert(all_fit(self.secs()[i as int]@, self.src().len()));
            assert(self.secs()[i as int].headed());
        }
        self.sections[i].key(&self.source)
    }

    pub(crate) fn get_at(&self, ps: &[usize], key: &str) -> (r: Option<&str>)
        requires
            self.wf(),
            valid_positions(ps@, self.secs().len()),
        ensures
            crate::section::opt_view(r) == group_get(members(self.items(), idx(ps@)), self.src(), key@),
    {
        let kc = crate::text::chars_of(key);
        group_get_in(&self.sections, &self.source, ps, kc.as_slice())
    }

    pub(crate) fn set_at(&mut self, ps: &[usize], key: &str, value: String)
        requires
            old(self).wf(),
            ps@.len() > 0,
            valid_positions(ps@, old(self).secs().len()),
        ensures
            final(self).wf(),
            final(self).src() == old(self).src(),
            final(self).global() == old(self).global(),
            final(self).secs().len() == old(self).secs().len(),
            ({
                let j = idx(ps@)[write_target(members(old(self).items(), idx(ps@)), old(self).src(), key@)];
                let (before, after) = (old(self).items(), final(self).items());
                &&& crate::group::others_kept(before, after, seq![j])
                &&& crate::section::value_set(before[j], after[j], old(self).src(), key@, value)
            }),
    {
        let kc = crate::text::chars_of(key);
        group_set_in(&mut self.sections, &self.source, ps, kc.as_slice(), value);
        proof {
            let ms = members(old(self).items(), idx(ps@));
            crate::group::lemma_target_range(ms, self.src(), key@);
        }
    }

    pub(crate) fn remove_at(&mut self, ps: &[usize], key: &str)
        requires
            old(self).wf(),
            valid_positions(ps@, old(self).secs().len()),
        ensures
            final(self).wf(),
            final(self).src() == old(self).src(),
            final(self).global() == old(self).global(),
            final(self).items().len() == old(self).items().len(),
            forall|i: int|
                0 <= i < old(self).items().len() ==> #[trigger] final(self).items()[i] == if idx(
                    ps@,
                ).contains(i) {
                    crate::section::without(old(self).items()[i], old(self).src(), key@)
                } else {
                    old(self).items()[i]
                },
    {
        let kc = crate::text::chars_of(key);
        group_remove_in(&mut self.sections, &self.source, ps, kc.as_slice());
        proof {
            assert forall|i: int| 0 <= i < old(self).items().len() implies #[trigger] self.items()[i]
                == if idx(ps@).contains(i) {
                crate::section::without(old(self).items()[i], old(self).src(), key@)
            } else {
                old(self).items()[i]
            } by {
                lemma_among_idx(ps@, i);
                assert(self.items()[i] == self.secs()[i]@);
                assert(old(self).items()[i] == old(self).secs()[i]@);
            }
        }
    }

    pub(crate) fn rename_at(&mut self, ps: &[usize], from_key: &str, to_key: &str)
        requires
            old(self).wf(),
            valid_positions(ps@, old(self).secs().len()),
        ensures
            final(self).wf(),
            final(self).src() == old(self).src(),
            final(self).global() == old(self).global(),
            final(self).items().len() == old(self).items().len(),
            forall|i: int|
                0 <= i < old(self).items().len() ==> if idx(ps@).contains(i) {
                    crate::section::relabeled(
                        crate::section::without(old(self).items()[i], old(self).src(), to_key@),
                        #[trigger] final(self).items()[i],
                        old(self).src(),
                        from_key@,
                        to_key@,
                    )
                } else {
                    final(self).items()[i] == old(self).items()[i]
                },
    {
        let fc = crate::text::chars_of(from_key);
        let tc = crate::text::chars_of(to_key);
        group_rename_in(&mut self.sections, &self.source, ps, fc.as_slice(), tc.as_slice());
        proof {
            assert forall|i: int| 0 <= i < old(self).items().len() implies if idx(ps@).contains(i) {
                crate::section::relabeled(
                    crate::section::without(old(self).items()[i], old(self).src(), to_key@),
                    #[trigger] self.items()[i],
                    old(self).src(),
                    from_key@,
                    to_key@,
                )
            } else {
                self.items()[i] == old(self).items()[i]
            } by {
                lemma_among_idx(ps@, i);
                assert(self.items()[i] == self.secs()[i]@);
                assert(old(self).items()[i] == old(self).secs()[i]@);
            }
        }
    }

    /// Names `to_key` in the header of each section at positions `ps`, and re-keys the index.
    pub(crate) fn set_key_at(&mut self, ps: &[usize], to_key: &str)
        requires
            old(self).wf(),
            valid_positions(ps@, old(self).secs().len()),
        ensures
            final(self).wf(),
            final(self).src() == old(self).src(),
            final(self).global() == old(self).global(),
            final(self).items().len() == old(self).items().len(),
            forall|i: int|
                0 <= i < old(self).items().len() ==> key_set(
                    old(self).items()[i],
                    #[trigger] final(self).items()[i],
                    idx(ps@).contains(i),
                    to_key@,
                ),
    {
        group_set_key_in(&mut self.sections, &self.source, ps, to_key);
        self.section_index = build_section_index(&self.sections, &self.source);
        proof {
            assert forall|i: int| 0 <= i < old(self).items().len() implies key_set(
                old(self).items()[i],
                #[trigger] self.items()[i],
                idx(ps@).contains(i),
                to_key@,
            ) by {
                lemma_among_idx(ps@, i);
                assert(self.items()[i] == self.secs()[i]@);
                assert(old(self).items()[i] == old(self).secs()[i]@);
            }
        }
    }
}

impl Ini {
    /// Every section of a well-formed document starts with its header.
    pub proof fn lemma_headed(&self)
        requires
            self.wf(),
        ensures
            forall|i: int|
                0 <= i < self.items().len() ==> (#[trigger] self.items()[i]).len() > 0
                    && self.items()[i][0] is Section,
    {
        assert forall|i: int| 0 <= i < self.items().len() implies (#[trigger] self.items()[i]).len() > 0
            && self.items()[i][0] is Section by {
            assert(self.secs()[i].headed());
            assert(self.items()[i] == self.secs()[i]@);
        }
    }
}

} // verus!
