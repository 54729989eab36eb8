use vstd::prelude::*;

use crate::group::{group_get, write_target};
use crate::ini::{concat_items, lemma_all_texts, lemma_positions_same, Ini};
use crate::item::Item;
use crate::parse::{lemma_items_from, lemma_texts_concat, parse};
use crate::section::{get_value, last_match, prop_with, without};
use crate::text::eq_ic;

verus! {

/// Writing back a document read from `s`, before any change, gives `s` again.
pub proof fn lemma_round_trip(d: Ini, s: Seq<char>)
    requires
        s.len() <= usize::MAX,
        d.src() == s,
        d.global() + concat_items(d.items()) == parse(s),
    ensures
        d.text() == s,
{
    lemma_items_from(s, 0);
    assert(s.subrange(0, s.len() as int) =~= s);
    lemma_texts_concat(d.global(), concat_items(d.items()), s);
    lemma_all_texts(d.items(), s);
}

/// Reading back what a document read from `s` writes, and writing that again, gives the same
/// text.
pub proof fn lemma_reparse_stable(d1: Ini, d2: Ini, s: Seq<char>)
    requires
        s.len() <= usize::MAX,
        d1.src() == s,
        d1.global() + concat_items(d1.items()) == parse(s),
        d2.src() == d1.text(),
        d2.global() + concat_items(d2.items()) == parse(d1.text()),
    ensures
        d2.text() == d1.text(),
{
    lemma_round_trip(d1, s);
    lemma_round_trip(d2, d1.text());
}

proof fn lemma_prop_with_same(it: Item, src: Seq<char>, a: Seq<char>, b: Seq<char>)
    requires
        eq_ic(a, b),
    ensures
        prop_with(it, src, a) == prop_with(it, src, b),
{
}

proof fn lemma_last_match_same(items: Seq<Item>, src: Seq<char>, a: Seq<char>, b: Seq<char>)
    requires
        eq_ic(a, b),
    ensures
        last_match(items, src, a) == last_match(items, src, b),
    decreases items.len(),
{
    if items.len() > 0 {
        lemma_prop_with_same(items.last(), src, a, b);
        lemma_last_match_same(items.drop_last(), src, a, b);
    }
}

proof fn lemma_group_get_same(ms: Seq<Seq<Item>>, src: Seq<char>, a: Seq<char>, b: Seq<char>)
    requires
        eq_ic(a, b),
    ensures
        group_get(ms, src, a) == group_get(ms, src, b),
    decreases ms.len(),
{
    if ms.len() > 0 {
        lemma_last_match_same(ms.last(), src, a, b);
        lemma_group_get_same(ms.drop_last(), src, a, b);
    }
}

/// Section keys and property keys are looked up without regard to ASCII case.
pub proof fn lemma_lookup_ignores_case(
    d: Ini,
    section1: Seq<char>,
    key1: Seq<char>,
    section2: Seq<char>,
    key2: Seq<char>,
)
    requires
        eq_ic(section1, section2),
        eq_ic(key1, key2),
    ensures
        d.value_in(section1, key1) == d.value_in(section2, key2),
{
    lemma_positions_same(d.keys(), section1, section2, d.keys().len() as int);
    lemma_group_get_same(d.members_of(section1), d.src(), key1, key2);
}

/// Within one section, the last property with a key gives its value.
pub proof fn lemma_last_property_wins(items: Seq<Item>, src: Seq<char>, key: Seq<char>, j: int)
    requires
        0 <= j < items.len(),
        prop_with(items[j], src, key),
        forall|i: int| j < i < items.len() ==> !prop_with(#[trigger] items[i], src, key),
    ensures
        last_match(items, src, key) == j,
        get_value(items, src, key) == Some(items[j]->Property_0.value.text(src)),
    decreases items.len(),
{
    if j < items.len() - 1 {
        assert(!prop_with(items[items.len() - 1], src, key));
        assert forall|i: int| j < i < items.drop_last().len() implies !prop_with(
            #[trigger] items.drop_last()[i],
            src,
            key,
        ) by {
            assert(items.drop_last()[i] == items[i]);
        }
        assert(items.drop_last()[j] == items[j]);
        lemma_last_property_wins(items.drop_last(), src, key, j);
    }
}

/// Across sections that share a key, the latest section that has a property gives its value.
pub proof fn lemma_latest_section_wins(ms: Seq<Seq<Item>>, src: Seq<char>, key: Seq<char>, t: int)
    requires
        0 <= t < ms.len(),
        get_value(ms[t], src, key) is Some,
        forall|u: int| t < u < ms.len() ==> get_value(#[trigger] ms[u], src, key) is None,
    ensures
        group_get(ms, src, key) == get_value(ms[t], src, key),
    decreases ms.len(),
{
    if t < ms.len() - 1 {
        assert(get_value(ms[ms.len() - 1], src, key) is None);
        lemma_latest_section_wins(ms.drop_last(), src, key, t);
        assert(ms.drop_last()[t] == ms[t]);
    }
}

/// Once the properties with a key are deleted from a section, it has none left.
pub proof fn lemma_removed_is_gone(items: Seq<Item>, src: Seq<char>, key: Seq<char>)
    ensures
        last_match(without(items, src, key), src, key) == -1,
        get_value(without(items, src, key), src, key) is None,
    decreases items.len(),
{
    if items.len() > 0 {
        lemma_removed_is_gone(items.drop_last(), src, key);
        let w = without(items.drop_last(), src, key);
        if !prop_with(items.last(), src, key) {
            assert(w.push(items.last()).drop_last() =~= w);
            assert(w.push(items.last()).last() == items.last());
        }
    } else {
        assert(without(items, src, key) == items);
    }
}

/// After every section of a group loses a key, the group has no value for it.
pub proof fn lemma_group_removed_is_gone(ms: Seq<Seq<Item>>, src: Seq<char>, key: Seq<char>)
    requires
        forall|t: int| 0 <= t < ms.len() ==> last_match(#[trigger] ms[t], src, key) == -1,
    ensures
        group_get(ms, src, key) is None,
    decreases ms.len(),
{
    if ms.len() > 0 {
        assert(last_match(ms[ms.len() - 1], src, key) == -1);
        lemma_group_removed_is_gone(ms.drop_last(), src, key);
    }
}

/// A write of a key that no section of a group but the first has goes to the first section.
pub proof fn lemma_new_key_goes_first(ms: Seq<Seq<Item>>, src: Seq<char>, key: Seq<char>)
    requires
        ms.len() > 0,
        forall|t: int| 1 <= t < ms.len() ==> last_match(#[trigger] ms[t], src, key) < 0,
    ensures
        write_target(ms, src, key) == 0,
    decreases ms.len(),
{
    if ms.len() > 1 {
        assert(last_match(ms[ms.len() - 1], src, key) < 0);
        lemma_new_key_goes_first(ms.drop_last(), src, key);
    }
}

/// Deleting a key from the sections keyed `section` leaves the document with no value for it
/// there.
pub proof fn lemma_remove_in_clears(before: Ini, after: Ini, section: Seq<char>, key: Seq<char>)
    requires
        before.wf(),
        after.src() == before.src(),
        after.items().len() == before.items().len(),
        forall|i: int|
            0 <= i < before.items().len() ==> #[trigger] after.items()[i] == if before.group_of(
                section,
            ).contains(i) {
                without(before.items()[i], before.src(), key)
            } else {
                before.items()[i]
            },
    ensures
        after.value_in(section, key) is None,
{
    let src = before.src();
    before.lemma_headed();
    assert(after.keys() =~= before.keys()) by {
        assert forall|i: int| 0 <= i < before.items().len() implies after.keys()[i]
            == before.keys()[i] by {
            assert(after.items()[i] == if before.group_of(section).contains(i) {
                without(before.items()[i], src, key)
            } else {
                before.items()[i]
            });
            if before.group_of(section).contains(i) {
                crate::group::lemma_without_head(before.items()[i], src, key);
            }
            assert(before.keys()[i] == crate::section::header_key(before.items()[i][0], src));
            assert(after.keys()[i] == crate::section::header_key(after.items()[i][0], src));
        }
    }
    let ps = before.group_of(section);
    let ms = after.members_of(section);
    crate::ini::lemma_positions_valid(before.keys(), section, before.keys().len() as int);
    assert forall|t: int| 0 <= t < ms.len() implies last_match(#[trigger] ms[t], src, key) == -1 by {
        assert(ps.contains(ps[t]));
        assert(ms[t] == after.items()[ps[t]]);
        lemma_removed_is_gone(before.items()[ps[t]], src, key);
    }
    lemma_group_removed_is_gone(ms, src, key);
}

/// Writing a key that no section keyed `section` but the first has changes that first section.
pub proof fn lemma_set_in_goes_first(
    before: Ini,
    after: Ini,
    section: Seq<char>,
    key: Seq<char>,
    value: String,
)
    requires
        before.group_of(section).len() > 0,
        forall|t: int|
            1 <= t < before.group_of(section).len() ==> last_match(
                #[trigger] before.members_of(section)[t],
                before.src(),
                key,
            ) < 0,
        crate::ini::written(
            before.items(),
            after.items(),
            before.group_of(section),
            before.src(),
            section,
            key,
            value,
        ),
    ensures
        ({
            let j = before.group_of(section)[0];
            &&& forall|i: int| 0 <= i < before.items().len() && i != j ==> #[trigger] after.items()[i] == before.items()[i]
            &&& crate::section::value_set(before.items()[j], after.items()[j], before.src(), key, value)
        }),
{
    lemma_new_key_goes_first(before.members_of(section), before.src(), key);
}

} // verus!
