use vstd::prelude::*;

use crate::item::Item;
use crate::parse::all_fit;
use crate::section::{
    prop_with, get_value, header_key, header_renamed, last_match, opt_view, pairs, relabeled,
    value_set, without, ConcreteSection,
};
use crate::span::Source;
use crate::text::eq_ic;

verus! {

/// The items of each section.
pub open spec fn items_of(secs: Seq<ConcreteSection>) -> Seq<Seq<Item>> {
    secs.map_values(|s: ConcreteSection| s@)
}

/// Every section's spans lie within a source of `len` characters.
pub open spec fn secs_fit(secs: Seq<ConcreteSection>, len: nat) -> bool {
    forall|i: int| 0 <= i < secs.len() ==> all_fit(#[trigger] secs[i]@, len)
}

/// Every section starts with a header.
pub open spec fn secs_headed(secs: Seq<ConcreteSection>) -> bool {
    forall|i: int| 0 <= i < secs.len() ==> (#[trigger] secs[i]).headed()
}

/// The key each section's header names.
pub open spec fn keys_of(secs: Seq<ConcreteSection>, src: Seq<char>) -> Seq<Seq<char>> {
    secs.map_values(|s: ConcreteSection| header_key(s@[0], src))
}

/// Positions below `n`, in ascending order, whose key equals `k` up to ASCII case.
pub open spec fn positions(keys: Seq<Seq<char>>, k: Seq<char>, n: int) -> Seq<int>
    decreases n,
{
    if n <= 0 {
        seq![]
    } else if eq_ic(keys[n - 1], k) {
        positions(keys, k, n - 1).push(n - 1)
    } else {
        positions(keys, k, n - 1)
    }
}

/// Positions of every key equal to `k` up to ASCII case, in ascending order.
pub open spec fn group(keys: Seq<Seq<char>>, k: Seq<char>) -> Seq<int> {
    positions(keys, k, keys.len() as int)
}

/// Positions as integers.
pub open spec fn idx(v: Seq<usize>) -> Seq<int> {
    v.map_values(|i: usize| i as int)
}

/// The members at positions `ps`, in that order.
pub open spec fn members(secs: Seq<Seq<Item>>, ps: Seq<int>) -> Seq<Seq<Item>> {
    ps.map_values(|i: int| secs[i])
}

/// The value of `key` in a group: that of the latest member that has the key.
pub open spec fn group_get(ms: Seq<Seq<Item>>, src: Seq<char>, key: Seq<char>) -> Option<Seq<char>>
    decreases ms.len(),
{
    if ms.len() == 0 {
        None
    } else {
        match get_value(ms.last(), src, key) {
            Some(v) => Some(v),
            None => group_get(ms.drop_last(), src, key),
        }
    }
}

/// Which member a write of `key` goes to: the latest member but the first that has the key,
/// or else the first.
pub open spec fn write_target(ms: Seq<Seq<Item>>, src: Seq<char>, key: Seq<char>) -> int
    decreases ms.len(),
{
    if ms.len() <= 1 {
        0
    } else if last_match(ms.last(), src, key) >= 0 {
        ms.len() - 1
    } else {
        write_target(ms.drop_last(), src, key)
    }
}

/// The key and value of each property of the members, member after member.
pub open spec fn group_pairs(ms: Seq<Seq<Item>>, src: Seq<char>) -> Seq<(Seq<char>, Seq<char>)>
    decreases ms.len(),
{
    if ms.len() == 0 {
        seq![]
    } else {
        group_pairs(ms.drop_last(), src) + pairs(ms.last(), src)
    }
}

/// `ps` holds valid positions of `secs`, strictly ascending.
pub open spec fn valid_positions(ps: Seq<usize>, n: nat) -> bool {
    &&& forall|t: int| 0 <= t < ps.len() ==> #[trigger] ps[t] < n
    &&& forall|s: int, t: int| 0 <= s < t < ps.len() ==> ps[s] < ps[t]
}

/// Only the sections at positions `ps` may differ between `before` and `after`.
pub open spec fn others_kept(before: Seq<Seq<Item>>, after: Seq<Seq<Item>>, ps: Seq<int>) -> bool {
    &&& after.len() == before.len()
    &&& forall|i: int|
        0 <= i < before.len() && !ps.contains(i) ==> #[trigger] after[i] == before[i]
}

pub proof fn lemma_target_range(ms: Seq<Seq<Item>>, src: Seq<char>, key: Seq<char>)
    ensures
        ms.len() > 0 ==> 0 <= write_target(ms, src, key) < ms.len(),
        forall|t: int|
            write_target(ms, src, key) < t < ms.len() && t >= 1 ==> last_match(
                #[trigger] ms[t],
                src,
                key,
            ) < 0,
        write_target(ms, src, key) > 0 ==> last_match(ms[write_target(ms, src, key)], src, key)
            >= 0,
    decreases ms.len(),
{
    if ms.len() > 1 && last_match(ms.last(), src, key) < 0 {
        lemma_target_range(ms.drop_last(), src, key);
        assert forall|t: int|
            write_target(ms, src, key) < t < ms.len() && t >= 1 implies last_match(
            #[trigger] ms[t],
            src,
            key,
        ) < 0 by {
            if t < ms.len() - 1 {
                assert(ms[t] == ms.drop_last()[t]);
            }
        }
    }
}

pub proof fn lemma_value_set_keeps(
    before: Seq<Item>,
    after: Seq<Item>,
    src: Seq<char>,
    key: Seq<char>,
    value: String,
)
    requires
        all_fit(before, src.len()),
        before.len() > 0,
        before[0] is Section,
        value_set(before, after, src, key, value),
    ensures
        all_fit(after, src.len()),
        after.len() > 0,
        after[0] == before[0],
{
    crate::section::lemma_last_match(before, src, key);
    let j = last_match(before, src, key);
    assert forall|i: int| 0 <= i < after.len() implies #[trigger] after[i].fits(src.len()) by {
        if i < before.len() {
            assert(before[i].fits(src.len()));
            if i != j {
                assert(after[i] == before[i]);
            }
        }
    }
}

/// The value of `key` in the group of sections at positions `ps`.
pub fn group_get_in<'a>(
    secs: &'a Vec<ConcreteSection>,
    source: &'a Source,
    ps: &[usize],
    key: &[char],
) -> (r: Option<&'a str>)
    requires
        source.wf(),
        secs_fit(secs@, source@.len()),
        valid_positions(ps@, secs@.len()),
    ensures
        opt_view(r) == group_get(members(items_of(secs@), idx(ps@)), source@, key@),
{
    let ghost src = source@;
    let ghost ms = members(items_of(secs@), idx(ps@));
    let mut t: usize = ps.len();
    proof {
        assert(ms.subrange(0, t as int) =~= ms);
    }
    while t > 0
        invariant
            t <= ps@.len(),
            src == source@,
            source.wf(),
            secs_fit(secs@, src.len()),
            valid_positions(ps@, secs@.len()),
            ms == members(items_of(secs@), idx(ps@)),
            group_get(ms, src, key@) == group_get(ms.subrange(0, t as int), src, key@),
        decreases t,
    {
        let i = ps[t - 1];
        proof {
            assert(ms.subrange(0, t as int).drop_last() =~= ms.subrange(0, t - 1));
            assert(ms[t - 1] == secs@[i as int]@);
            assert(all_fit(secs@[i as int]@, src.len()));
        }
        match secs[i].get_chars(source, key) {
            Some(v) => {
                return Some(v);
            },
            None => {},
        }
        t = t - 1;
    }
    None
}

/// Writes `value` under `key` in the group at positions `ps`: over the latest member but the
/// first that has the key, or else in the first member.
pub fn group_set_in(
    secs: &mut Vec<ConcreteSection>,
    source: &Source,
    ps: &[usize],
    key: &[char],
    value: String,
)
    requires
        ps@.len() > 0,
        secs_fit(old(secs)@, source@.len()),
        secs_headed(old(secs)@),
        valid_positions(ps@, old(secs)@.len()),
    ensures
        ({
            let ms = members(items_of(old(secs)@), idx(ps@));
            let j = ps@[write_target(ms, source@, key@)] as int;
            let (before, after) = (items_of(old(secs)@), items_of(final(secs)@));
            &&& others_kept(before, after, seq![j])
            &&& value_set(before[j], after[j], source@, key@, value)
            &&& after[j][0] == before[j][0]
        }),
        secs_fit(final(secs)@, source@.len()),
        secs_headed(final(secs)@),
        keys_of(final(secs)@, source@) == keys_of(old(secs)@, source@),
{
    let ghost src = source@;
    let ghost ms = members(items_of(secs@), idx(ps@));
    let mut t: usize = ps.len() - 1;
    proof {
        lemma_target_range(ms, src, key@);
    }
    while t > 0
        invariant
            1 <= ps@.len(),
            t < ps@.len(),
            src == source@,
            secs_fit(secs@, src.len()),
            valid_positions(ps@, secs@.len()),
            ms == members(items_of(secs@), idx(ps@)),
            forall|u: int| t < u < ps@.len() ==> last_match(#[trigger] ms[u], src, key@) < 0,
        ensures
            t < ps@.len(),
            secs_fit(secs@, src.len()),
            valid_positions(ps@, secs@.len()),
            ms == members(items_of(secs@), idx(ps@)),
            forall|u: int| t < u < ps@.len() ==> last_match(#[trigger] ms[u], src, key@) < 0,
            t == 0 || last_match(ms[t as int], src, key@) >= 0,
        decreases t,
    {
        proof {
            assert(ms[t as int] == secs@[ps@[t as int] as int]@);
            assert(all_fit(secs@[ps@[t as int] as int]@, src.len()));
        }
        if secs[ps[t]].find_prop(source, key).is_some() {
            break;
        }
        t = t - 1;
    }
    let i = ps[t];
    proof {
        assert(ms[t as int] == secs@[i as int]@);
        assert(all_fit(secs@[i as int]@, src.len()));
        lemma_target_exact(ms, src, key@, t as int);
    }
    let ghost before = secs@;
    secs[i].set_chars(source, key, value);
    proof {
        lemma_one_changed(before, secs@, i as int, src, key@, value);
        assert(items_of(before)[i as int] == before[i as int]@);
        assert(items_of(secs@)[i as int] == secs@[i as int]@);
    }
}

proof fn lemma_target_exact(ms: Seq<Seq<Item>>, src: Seq<char>, key: Seq<char>, t: int)
    requires
        0 <= t < ms.len(),
        t == 0 || last_match(ms[t], src, key) >= 0,
        forall|u: int| t < u < ms.len() ==> last_match(#[trigger] ms[u], src, key) < 0,
    ensures
        write_target(ms, src, key) == t,
    decreases ms.len(),
{
    if ms.len() > 1 && ms.len() - 1 != t {
        assert(last_match(ms[ms.len() - 1], src, key) < 0);
        lemma_target_exact(ms.drop_last(), src, key, t);
    }
}

proof fn lemma_one_changed(
    before: Seq<ConcreteSection>,
    after: Seq<ConcreteSection>,
    j: int,
    src: Seq<char>,
    key: Seq<char>,
    value: String,
)
    requires
        0 <= j < before.len(),
        after.len() == before.len(),
        forall|i: int| 0 <= i < before.len() && i != j ==> after[i]@ == before[i]@,
        secs_fit(before, src.len()),
        secs_headed(before),
        value_set(before[j]@, after[j]@, src, key, value),
    ensures
        others_kept(items_of(before), items_of(after), seq![j]),
        secs_fit(after, src.len()),
        secs_headed(after),
        keys_of(after, src) == keys_of(before, src),
        after[j]@[0] == before[j]@[0],
{
    assert(before[j].headed());
    lemma_value_set_keeps(before[j]@, after[j]@, src, key, value);
    assert forall|i: int|
        0 <= i < before.len() && !seq![j].contains(i) implies #[trigger] items_of(
        after,
    )[i] == items_of(before)[i] by {
        if i == j {
            assert(seq![j][0] == j);
        }
    }
    assert(keys_of(after, src) =~= keys_of(before, src)) by {
        assert forall|i: int| 0 <= i < after.len() implies keys_of(after, src)[i] == keys_of(before, src)[i] by {
            if i != j {
                assert(after[i]@ == before[i]@);
            }
        }
    }
    assert(secs_fit(after, src.len())) by {
        assert forall|i: int| 0 <= i < after.len() implies all_fit(#[trigger] after[i]@, src.len()) by {
            if i != j {
                assert(after[i]@ == before[i]@);
            }
        }
    }
    assert(secs_headed(after)) by {
        assert forall|i: int| 0 <= i < after.len() implies (#[trigger] after[i]).headed() by {
            if i != j {
                assert(after[i]@ == before[i]@);
            }
        }
    }
}

pub proof fn lemma_without_head(items: Seq<Item>, src: Seq<char>, key: Seq<char>)
    requires
        items.len() > 0,
        items[0] is Section,
    ensures
        without(items, src, key).len() > 0,
        without(items, src, key)[0] == items[0],
    decreases items.len(),
{
    if items.len() > 1 {
        lemma_without_head(items.drop_last(), src, key);
    } else {
        assert(items.drop_last() =~= Seq::<Item>::empty());
        assert(without(items.drop_last(), src, key) == Seq::<Item>::empty());
        assert(!prop_with(items.last(), src, key));
    }
}

/// Position `i` is among the first `n` of `ps`.
pub open spec fn among(ps: Seq<usize>, n: int, i: int) -> bool {
    exists|k: int| 0 <= k < n && #[trigger] ps[k] as int == i
}

/// What is true of each section after a step that changed only the one at `i`.
proof fn lemma_step(
    before: Seq<ConcreteSection>,
    after: Seq<ConcreteSection>,
    i: int,
    src: Seq<char>,
)
    requires
        0 <= i < before.len(),
        after.len() == before.len(),
        forall|j: int| 0 <= j < before.len() && j != i ==> after[j] == before[j],
        secs_fit(before, src.len()),
        secs_headed(before),
        all_fit(after[i]@, src.len()),
        after[i]@.len() > 0,
        after[i]@[0] == before[i]@[0],
    ensures
        secs_fit(after, src.len()),
        secs_headed(after),
        keys_of(after, src) == keys_of(before, src),
{
    assert(before[i].headed());
    assert forall|j: int| 0 <= j < after.len() implies all_fit(#[trigger] after[j]@, src.len()) by {
        if j != i {
            assert(after[j] == before[j]);
        }
    }
    assert forall|j: int| 0 <= j < after.len() implies (#[trigger] after[j]).headed() by {
        if j != i {
            assert(after[j] == before[j]);
        }
    }
    assert(keys_of(after, src) =~= keys_of(before, src)) by {
        assert forall|j: int| 0 <= j < after.len() implies keys_of(after, src)[j] == keys_of(
            before,
            src,
        )[j] by {
            if j != i {
                assert(after[j] == before[j]);
            }
        }
    }
}

/// Deletes every property keyed `key` from each section at positions `ps`.
pub fn group_remove_in(secs: &mut Vec<ConcreteSection>, source: &Source, ps: &[usize], key: &[char])
    requires
        secs_fit(old(secs)@, source@.len()),
        secs_headed(old(secs)@),
        valid_positions(ps@, old(secs)@.len()),
    ensures
        final(secs)@.len() == old(secs)@.len(),
        forall|i: int|
            0 <= i < old(secs)@.len() ==> #[trigger] final(secs)@[i]@ == if among(
                ps@,
                ps@.len() as int,
                i,
            ) {
                without(old(secs)@[i]@, source@, key@)
            } else {
                old(secs)@[i]@
            },
        secs_fit(final(secs)@, source@.len()),
        secs_headed(final(secs)@),
        keys_of(final(secs)@, source@) == keys_of(old(secs)@, source@),
{
    let ghost src = source@;
    let mut t: usize = 0;
    while t < ps.len()
        invariant
            t <= ps@.len(),
            src == source@,
            secs@.len() == old(secs)@.len(),
            valid_positions(ps@, secs@.len()),
            secs_fit(secs@, src.len()),
            secs_headed(secs@),
            keys_of(secs@, src) == keys_of(old(secs)@, src),
            forall|i: int|
                0 <= i < old(secs)@.len() ==> #[trigger] secs@[i]@ == if among(ps@, t as int, i) {
                    without(old(secs)@[i]@, src, key@)
                } else {
                    old(secs)@[i]@
                },
        decreases ps@.len() - t,
    {
        let i = ps[t];
        let ghost before = secs@;
        proof {
            assert(all_fit(secs@[i as int]@, src.len()));
            assert(secs@[i as int].headed());
            assert(!among(ps@, t as int, i as int));
        }
        secs[i].remove_chars(source, key);
        proof {
            crate::section::lemma_without_fits(before[i as int]@, src, key@);
            lemma_without_head(before[i as int]@, src, key@);
            lemma_step(before, secs@, i as int, src);
            assert forall|j: int| 0 <= j < old(secs)@.len() implies #[trigger] secs@[j]@ == if among(
                ps@,
                t + 1,
                j,
            ) {
                without(old(secs)@[j]@, src, key@)
            } else {
                old(secs)@[j]@
            } by {
                if j == i {
                    assert(ps@[t as int] as int == j);
                } else {
                    assert(secs@[j] == before[j]);
                    if among(ps@, t + 1, j) {
                        let k = choose|k: int| 0 <= k < t + 1 && #[trigger] ps@[k] as int == j;
                        assert(k < t);
                    }
                }
            }
        }
        t = t + 1;
    }
}

/// In each section at positions `ps`, deletes the properties keyed `to_key`, then names
/// `to_key` in those keyed `from_key`.
pub fn group_rename_in(
    secs: &mut Vec<ConcreteSection>,
    source: &Source,
    ps: &[usize],
    from_key: &[char],
    to_key: &[char],
)
    requires
        secs_fit(old(secs)@, source@.len()),
        secs_headed(old(secs)@),
        valid_positions(ps@, old(secs)@.len()),
    ensures
        final(secs)@.len() == old(secs)@.len(),
        forall|i: int|
            0 <= i < old(secs)@.len() ==> if among(ps@, ps@.len() as int, i) {
                relabeled(
                    without(old(secs)@[i]@, source@, to_key@),
                    #[trigger] final(secs)@[i]@,
                    source@,
                    from_key@,
                    to_key@,
                )
            } else {
                final(secs)@[i]@ == old(secs)@[i]@
            },
        secs_fit(final(secs)@, source@.len()),
        secs_headed(final(secs)@),
        keys_of(final(secs)@, source@) == keys_of(old(secs)@, source@),
{
    let ghost src = source@;
    let mut t: usize = 0;
    while t < ps.len()
        invariant
            t <= ps@.len(),
            src == source@,
            secs@.len() == old(secs)@.len(),
            valid_positions(ps@, secs@.len()),
            secs_fit(secs@, src.len()),
            secs_headed(secs@),
            keys_of(secs@, src) == keys_of(old(secs)@, src),
            forall|i: int|
                0 <= i < old(secs)@.len() ==> if among(ps@, t as int, i) {
                    relabeled(
                        without(old(secs)@[i]@, src, to_key@),
                        #[trigger] secs@[i]@,
                        src,
                        from_key@,
                        to_key@,
                    )
                } else {
                    secs@[i]@ == old(secs)@[i]@
                },
        decreases ps@.len() - t,
    {
        let i = ps[t];
        let ghost before = secs@;
        proof {
            assert(all_fit(secs@[i as int]@, src.len()));
            assert(secs@[i as int].headed());
            assert(!among(ps@, t as int, i as int));
        }
        secs[i].rename_chars(source, from_key, to_key);
        proof {
            lemma_without_head(before[i as int]@, src, to_key@);
            assert(!prop_with(without(before[i as int]@, src, to_key@)[0], src, from_key@));
            lemma_step(before, secs@, i as int, src);
            assert forall|j: int| 0 <= j < old(secs)@.len() implies if among(ps@, t + 1, j) {
                relabeled(
                    without(old(secs)@[j]@, src, to_key@),
                    #[trigger] secs@[j]@,
                    src,
                    from_key@,
                    to_key@,
                )
            } else {
                secs@[j]@ == old(secs)@[j]@
            } by {
                if j == i {
                    assert(ps@[t as int] as int == j);
                } else {
                    assert(secs@[j] == before[j]);
                    if among(ps@, t + 1, j) {
                        let k = choose|k: int| 0 <= k < t + 1 && #[trigger] ps@[k] as int == j;
                        assert(k < t);
                    }
                }
            }
        }
        t = t + 1;
    }
}

/// Names `to_key` in the header of each section at positions `ps`.
pub fn group_set_key_in(secs: &mut Vec<ConcreteSection>, source: &Source, ps: &[usize], to_key: &str)
    requires
        secs_fit(old(secs)@, source@.len()),
        secs_headed(old(secs)@),
        valid_positions(ps@, old(secs)@.len()),
    ensures
        final(secs)@.len() == old(secs)@.len(),
        forall|i: int|
            0 <= i < old(secs)@.len() ==> if among(ps@, ps@.len() as int, i) {
                &&& header_renamed(old(secs)@[i]@[0], #[trigger] final(secs)@[i]@[0], to_key@)
                &&& final(secs)@[i]@.drop_first() == old(secs)@[i]@.drop_first()
            } else {
                final(secs)@[i]@ == old(secs)@[i]@
            },
        secs_fit(final(secs)@, source@.len()),
        secs_headed(final(secs)@),
{
    let ghost src = source@;
    let mut t: usize = 0;
    while t < ps.len()
        invariant
            t <= ps@.len(),
            src == source@,
            secs@.len() == old(secs)@.len(),
            valid_positions(ps@, secs@.len()),
            secs_fit(secs@, src.len()),
            secs_headed(secs@),
            forall|i: int|
                0 <= i < old(secs)@.len() ==> if among(ps@, t as int, i) {
                    &&& header_renamed(old(secs)@[i]@[0], #[trigger] secs@[i]@[0], to_key@)
                    &&& secs@[i]@.drop_first() == old(secs)@[i]@.drop_first()
                } else {
                    secs@[i]@ == old(secs)@[i]@
                },
        decreases ps@.len() - t,
    {
        let i = ps[t];
        let ghost before = secs@;
        proof {
            assert(all_fit(secs@[i as int]@, src.len()));
            assert(secs@[i as int].headed());
            assert(!among(ps@, t as int, i as int));
        }
        secs[i].set_key(to_key);
        proof {
            let a = before[i as int]@;
            let b = secs@[i as int]@;
            assert forall|k: int| 0 <= k < b.len() implies #[trigger] b[k].fits(src.len()) by {
                if k > 0 {
                    assert(b[k] == b.drop_first()[k - 1]);
                    assert(a[k] == a.drop_first()[k - 1]);
                    assert(a[k].fits(src.len()));
                } else {
                    assert(a[0].fits(src.len()));
                }
            }
            assert forall|j: int| 0 <= j < secs@.len() implies all_fit(#[trigger] secs@[j]@, src.len()) by {
                if j != i {
                    assert(secs@[j] == before[j]);
                }
            }
            assert forall|j: int| 0 <= j < secs@.len() implies (#[trigger] secs@[j]).headed() by {
                if j != i {
                    assert(secs@[j] == before[j]);
                }
            }
            assert forall|j: int| 0 <= j < old(secs)@.len() implies if among(ps@, t + 1, j) {
                &&& header_renamed(old(secs)@[j]@[0], #[trigger] secs@[j]@[0], to_key@)
                &&& secs@[j]@.drop_first() == old(secs)@[j]@.drop_first()
            } else {
                secs@[j]@ == old(secs)@[j]@
            } by {
                if j == i {
                    assert(ps@[t as int] as int == j);
                } else {
                    assert(secs@[j] == before[j]);
                    if among(ps@, t + 1, j) {
                        let k = choose|k: int| 0 <= k < t + 1 && #[trigger] ps@[k] as int == j;
                        assert(k < t);
                    }
                }
            }
        }
        t = t + 1;
    }
}

} // verus!
