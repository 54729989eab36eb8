use vstd::prelude::*;

use crate::group::{group_get, group_pairs, idx, members, valid_positions, write_target};
use crate::item::Item;
use crate::parse::all_fit;
use crate::ini::{key_set, Ini};
use crate::section::{
    header_key, opt_view, pair_views, relabeled, value_set, without,
    ConcreteSection,
};
use crate::span::Source;
use crate::text::chars_of;

verus! {

/// References to the elements of `from` at `indices`, in that order.
pub fn borrow_indices<'a, T>(from: &'a [T], indices: &[usize]) -> (r: Vec<&'a T>)
    requires
        forall|t: int| 0 <= t < indices@.len() ==> #[trigger] indices@[t] < from@.len(),
    ensures
        r@.len() == indices@.len(),
        forall|t: int| 0 <= t < indices@.len() ==> *(#[trigger] r@[t]) == from@[indices@[t] as int],
{
    let mut r: Vec<&'a T> = Vec::new();
    let mut t: usize = 0;
    while t < indices.len()
        invariant
            t <= indices@.len(),
            forall|u: int| 0 <= u < indices@.len() ==> #[trigger] indices@[u] < from@.len(),
            r@.len() == t,
            forall|u: int| 0 <= u < t ==> *(#[trigger] r@[u]) == from@[indices@[u] as int],
        decreases indices@.len() - t,
    {
        r.push(&from[indices[t]]);
        t = t + 1;
    }
    r
}

/// Read-only view of the sections that share one key, as one section.
pub struct VirtualSection<'a> {
    source: &'a Source,
    sections: Vec<&'a ConcreteSection>,
}

impl<'a> VirtualSection<'a> {
    /// The items of each member, in the order of the text.
    pub closed spec fn members(&self) -> Seq<Seq<Item>> {
        self.sections@.map_values(|s: &ConcreteSection| s@)
    }

    /// The text the members were read from.
    pub closed spec fn src(&self) -> Seq<char> {
        self.source@
    }

    pub closed spec fn wf(&self) -> bool {
        &&& self.source.wf()
        &&& self.sections@.len() > 0
        &&& forall|t: int|
            0 <= t < self.sections@.len() ==> all_fit(#[trigger] self.sections@[t]@, self.source@.len())
        &&& forall|t: int| 0 <= t < self.sections@.len() ==> (#[trigger] self.sections@[t]).headed()
    }

    pub fn new(source: &'a Source, sections: Vec<&'a ConcreteSection>) -> (r: VirtualSection<'a>)
        requires
            source.wf(),
            sections@.len() > 0,
            forall|t: int| 0 <= t < sections@.len() ==> all_fit(#[trigger] sections@[t]@, source@.len()),
            forall|t: int| 0 <= t < sections@.len() ==> (#[trigger] sections@[t]).headed(),
        ensures
            r.wf(),
            r.src() == source@,
            r.members() == sections@.map_values(|s: &ConcreteSection| s@),
    {
        VirtualSection { source, sections }
    }

    /// The key the members' headers name, as the first of them writes it.
    pub fn key(&self) -> (r: &str)
        requires
            self.wf(),
        ensures
            r@ == header_key(self.members()[0][0], self.src()),
    {
        proof {
            assert(self.members()[0] == self.sections@[0]@);
        }
        self.sections[0].key(self.source)
    }

    /// The value of `key` in the latest member that has it.
    pub fn get(&self, key: &str) -> (r: Option<&'a str>)
        requires
            self.wf(),
        ensures
            opt_view(r) == group_get(self.members(), self.src(), key@),
    {
        let kc = chars_of(key);
        let ghost ms = self.members();
        let ghost src = self.src();
        let mut t: usize = self.sections.len();
        proof {
            assert(ms.subrange(0, t as int) =~= ms);
        }
        while t > 0
            invariant
                self.wf(),
                t <= self.sections@.len(),
                ms == self.members(),
                src == self.src(),
                kc@ == key@,
                group_get(ms, src, key@) == group_get(ms.subrange(0, t as int), src, key@),
            decreases t,
        {
            proof {
                assert(ms.subrange(0, t as int).drop_last() =~= ms.subrange(0, t - 1));
                assert(ms[t - 1] == self.sections@[t - 1]@);
            }
            let found = self.sections[t - 1].get_chars(self.source, kc.as_slice());
            if found.is_some() {
                return found;
            }
            t = t - 1;
        }
        None
    }

    /// Whether some member has a property keyed `key`.
    pub fn has(&self, key: &str) -> (r: bool)
        requires
            self.wf(),
        ensures
            r == group_get(self.members(), self.src(), key@) is Some,
    {
        self.get(key).is_some()
    }

    /// The key and value of each property of the members, member after member.
    pub fn iter(&self) -> (r: Vec<(&'a str, &'a str)>)
        requires
            self.wf(),
        ensures
            pair_views(r@) == group_pairs(self.members(), self.src()),
    {
        let ghost ms = self.members();
        let ghost src = self.src();
        let mut r: Vec<(&'a str, &'a str)> = Vec::new();
        let mut t: usize = 0;
        while t < self.sections.len()
            invariant
                self.wf(),
                t <= self.sections@.len(),
                ms == self.members(),
                src == self.src(),
                pair_views(r@) == group_pairs(ms.subrange(0, t as int), src),
            decreases self.sections@.len() - t,
        {
            proof {
                assert(ms.subrange(0, t + 1).drop_last() =~= ms.subrange(0, t as int));
                assert(ms[t as int] == self.sections@[t as int]@);
            }
            let pairs = self.sections[t].iter(self.source);
            let ghost before = r@;
            let mut u: usize = 0;
            while u < pairs.len()
                invariant
                    u <= pairs@.len(),
                    r@ == before + pairs@.subrange(0, u as int),
                decreases pairs@.len() - u,
            {
                r.push(pairs[u]);
                proof {
                    assert(r@ =~= before + pairs@.subrange(0, u + 1));
                }
                u = u + 1;
            }
            proof {
                assert(pairs@.subrange(0, u as int) =~= pairs@);
                assert(pair_views(r@) =~= pair_views(before) + pair_views(pairs@));
            }
            t = t + 1;
        }
        proof {
            assert(ms.subrange(0, t as int) =~= ms);
        }
        r
    }
}

/// Writable view of the sections that share one key, as one section. It holds the document
/// and the ascending positions of the members, so that no two references into the list of
/// sections are ever held at once.
pub struct VirtualSectionMut<'a> {
    pub ini: &'a mut Ini,
    pub indices: Vec<usize>,
}

impl<'a> VirtualSectionMut<'a> {
    /// The document as it is now.
    pub open spec fn doc(&self) -> Ini {
        *self.ini
    }

    /// Positions of the members, ascending.
    pub open spec fn positions(&self) -> Seq<int> {
        idx(self.indices@)
    }

    /// The items of each member, in the order of the text.
    pub open spec fn members(&self) -> Seq<Seq<Item>> {
        members(self.doc().items(), self.positions())
    }

    pub open spec fn wf(&self) -> bool {
        &&& self.ini.wf()
        &&& self.indices@.len() > 0
        &&& valid_positions(self.indices@, self.ini.secs().len())
    }

    pub fn new(ini: &'a mut Ini, indices: Vec<usize>) -> (r: VirtualSectionMut<'a>)
        requires
            old(ini).wf(),
            indices@.len() > 0,
            valid_positions(indices@, old(ini).secs().len()),
        ensures
            r.wf(),
            r.doc() == *old(ini),
            r.positions() == idx(indices@),
            *final(r.ini) == *final(ini),
    {
        VirtualSectionMut { ini, indices }
    }

    /// The key the members' headers name, as the first of them writes it.
    pub fn key(&self) -> (r: &str)
        requires
            self.wf(),
        ensures
            r@ == header_key(self.members()[0][0], self.doc().src()),
    {
        self.ini.key_at(self.indices[0])
    }

    /// Names `to_key` in the header of every member.
    pub fn set_key(&mut self, to_key: &str)
        requires
            old(self).wf(),
        ensures
            final(self).wf(),
            *final(final(self).ini) == *final(old(self).ini),
            final(self).positions() == old(self).positions(),
            final(self).doc().src() == old(self).doc().src(),
            final(self).doc().global() == old(self).doc().global(),
            final(self).doc().items().len() == old(self).doc().items().len(),
            forall|i: int|
                0 <= i < old(self).doc().items().len() ==> key_set(
                    old(self).doc().items()[i],
                    #[trigger] final(self).doc().items()[i],
                    old(self).positions().contains(i),
                    to_key@,
                ),
    {
        self.ini.set_key_at(self.indices.as_slice(), to_key);
    }

    /// The value of `key` in the latest member that has it.
    pub fn get(&self, key: &str) -> (r: Option<&str>)
        requires
            self.wf(),
        ensures
            opt_view(r) == group_get(self.members(), self.doc().src(), key@),
    {
        self.ini.get_at(self.indices.as_slice(), key)
    }

    /// Whether some member has a property keyed `key`.
    pub fn has(&self, key: &str) -> (r: bool)
        requires
            self.wf(),
        ensures
            r == group_get(self.members(), self.doc().src(), key@) is Some,
    {
        self.get(key).is_some()
    }

    /// Writes `value` under `key`: over the latest member but the first that has the key, or
    /// else in the first member.
    pub fn set(&mut self, key: &str, value: String)
        requires
            old(self).wf(),
        ensures
            final(self).wf(),
            *final(final(self).ini) == *final(old(self).ini),
            final(self).positions() == old(self).positions(),
            final(self).doc().src() == old(self).doc().src(),
            final(self).doc().global() == old(self).doc().global(),
            ({
                let j = old(self).positions()[write_target(old(self).members(), old(self).doc().src(), key@)];
                let (before, after) = (old(self).doc().items(), final(self).doc().items());
                &&& crate::group::others_kept(before, after, seq![j])
                &&& value_set(before[j], after[j], old(self).doc().src(), key@, value)
            }),
    {
        self.ini.set_at(self.indices.as_slice(), key, value);
    }

    /// Deletes every property keyed `key` from every member.
    pub fn remove(&mut self, key: &str)
        requires
            old(self).wf(),
        ensures
            final(self).wf(),
            *final(final(self).ini) == *final(old(self).ini),
            final(self).positions() == old(self).positions(),
            final(self).doc().src() == old(self).doc().src(),
            final(self).doc().global() == old(self).doc().global(),
            final(self).doc().items().len() == old(self).doc().items().len(),
            forall|i: int|
                0 <= i < old(self).doc().items().len() ==> #[trigger] final(self).doc().items()[i]
                    == if old(self).positions().contains(i) {
                    without(old(self).doc().items()[i], old(self).doc().src(), key@)
                } else {
                    old(self).doc().items()[i]
                },
    {
        self.ini.remove_at(self.indices.as_slice(), key);
    }

    /// In every member, deletes the properties keyed `to_key`, then names `to_key` in those
    /// keyed `from_key`.
    pub fn rename(&mut self, from_key: &str, to_key: &str)
        requires
            old(self).wf(),
        ensures
            final(self).wf(),
            *final(final(self).ini) == *final(old(self).ini),
            final(self).positions() == old(self).positions(),
            final(self).doc().src() == old(self).doc().src(),
            final(self).doc().global() == old(self).doc().global(),
            final(self).doc().items().len() == old(self).doc().items().len(),
            forall|i: int|
                0 <= i < old(self).doc().items().len() ==> if old(self).positions().contains(i) {
                    relabeled(
                        without(old(self).doc().items()[i], old(self).doc().src(), to_key@),
                        #[trigger] final(self).doc().items()[i],
                        old(self).doc().src(),
                        from_key@,
                        to_key@,
                    )
                } else {
                    final(self).doc().items()[i] == old(self).doc().items()[i]
                },
    {
        self.ini.rename_at(self.indices.as_slice(), from_key, to_key);
    }
}

} // verus!
