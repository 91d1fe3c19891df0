//! A map from byte-string names to values that is walked in dictionary order.
use vstd::prelude::*;

use crate::order;
use crate::wire;

verus! {

/// A name and its value.
struct Entry<V> {
    name: Vec<u8>,
    value: V,
}

/// A map that keeps its names in dictionary order.
pub struct NameMap<V> {
    entries: Vec<Entry<V>>,
}

/// Names in dictionary order, each once.
pub open spec fn in_order(names: Seq<Seq<u8>>) -> bool {
    forall|i: int, j: int|
        0 <= i < j < names.len() ==> order::bytes_before(#[trigger] names[i], #[trigger] names[j])
}

/// Two lists in dictionary order that hold the same names are the same.
pub proof fn lemma_in_order_unique(one: Seq<Seq<u8>>, two: Seq<Seq<u8>>)
    requires
        in_order(one),
        in_order(two),
        forall|name: Seq<u8>| one.contains(name) <==> two.contains(name),
    ensures
        one == two,
    decreases one.len(),
{
    if one.len() == 0 {
        if two.len() > 0 {
            assert(two.contains(two[0]));
        }
        assert(one =~= two);
    } else {
        assert(one.contains(one[0]));
        let at = choose|i: int| 0 <= i < two.len() && two[i] == one[0];
        assert(two.contains(two[0]));
        let back = choose|i: int| 0 <= i < one.len() && one[i] == two[0];
        if at > 0 {
            assert(order::bytes_before(two[0], two[at]));
            if back > 0 {
                assert(order::bytes_before(one[0], one[back]));
                order::lemma_before_transitive(one[0], two[0], one[0]);
            }
            order::lemma_not_before_itself(one[0]);
        }
        assert(one[0] == two[0]);
        let rest_one = one.drop_first();
        let rest_two = two.drop_first();
        assert forall|i: int, j: int| 0 <= i < j < rest_one.len() implies order::bytes_before(
            #[trigger] rest_one[i],
            #[trigger] rest_one[j],
        ) by {
            assert(rest_one[i] == one[i + 1] && rest_one[j] == one[j + 1]);
        }
        assert forall|i: int, j: int| 0 <= i < j < rest_two.len() implies order::bytes_before(
            #[trigger] rest_two[i],
            #[trigger] rest_two[j],
        ) by {
            assert(rest_two[i] == two[i + 1] && rest_two[j] == two[j + 1]);
        }
        assert forall|name: Seq<u8>| rest_one.contains(name) <==> rest_two.contains(name) by {
            if rest_one.contains(name) {
                let i = choose|i: int| 0 <= i < rest_one.len() && rest_one[i] == name;
                assert(one[i + 1] == name);
                assert(order::bytes_before(one[0], one[i + 1]));
                assert(one.contains(name) && two.contains(name));
                let k = choose|k: int| 0 <= k < two.len() && two[k] == name;
                if k == 0 {
                    order::lemma_not_before_itself(name);
                }
                assert(rest_two[k - 1] == name);
            }
            if rest_two.contains(name) {
                let i = choose|i: int| 0 <= i < rest_two.len() && rest_two[i] == name;
                assert(two[i + 1] == name);
                assert(order::bytes_before(two[0], two[i + 1]));
                assert(two.contains(name) && one.contains(name));
                let k = choose|k: int| 0 <= k < one.len() && one[k] == name;
                if k == 0 {
                    order::lemma_not_before_itself(name);
                }
                assert(rest_one[k - 1] == name);
            }
        }
        lemma_in_order_unique(rest_one, rest_two);
        assert(one =~= seq![one[0]] + rest_one);
        assert(two =~= seq![two[0]] + rest_two);
    }
}

/// The entry at `index` is that of `name`.
spec fn at_name<V>(entries: Seq<Entry<V>>, name: Seq<u8>, index: int) -> bool {
    0 <= index < entries.len() && entries[index].name@ == name
}

/// What the entries say.
spec fn entries_map<V>(entries: Seq<Entry<V>>) -> Map<Seq<u8>, V> {
    Map::new(
        |name: Seq<u8>| exists|index: int| at_name(entries, name, index),
        |name: Seq<u8>| entries[choose|index: int| at_name(entries, name, index)].value,
    )
}

/// The names of the entries.
spec fn entry_names<V>(entries: Seq<Entry<V>>) -> Seq<Seq<u8>> {
    entries.map_values(|entry: Entry<V>| entry.name@)
}

/// Entries are in order.
spec fn entries_wf<V>(entries: Seq<Entry<V>>) -> bool {
    forall|i: int, j: int|
        0 <= i < j < entries.len() ==> order::bytes_before(
            (#[trigger] entries[i]).name@,
            (#[trigger] entries[j]).name@,
        )
}

/// The map has the value of each entry.
proof fn lemma_entry<V>(entries: Seq<Entry<V>>, index: int)
    requires
        entries_wf(entries),
        0 <= index < entries.len(),
    ensures
        entries_map(entries).contains_key(entries[index].name@),
        entries_map(entries)[entries[index].name@] == entries[index].value,
{
    let name = entries[index].name@;
    assert(at_name(entries, name, index));
    let chosen = choose|i: int| at_name(entries, name, i);
    assert(at_name(entries, name, chosen));
    if chosen != index {
        order::lemma_not_before_itself(name);
    }
}

/// A new entry at its place in the order.
proof fn lemma_inserted<V>(entries: Seq<Entry<V>>, at: int, entry: Entry<V>)
    requires
        entries_wf(entries),
        0 <= at <= entries.len(),
        forall|i: int|
            0 <= i < at ==> order::bytes_before((#[trigger] entries[i]).name@, entry.name@),
        forall|i: int|
            at <= i < entries.len() ==> order::bytes_before(
                entry.name@,
                (#[trigger] entries[i]).name@,
            ),
    ensures
        entries_wf(entries.insert(at, entry)),
        !entries_map(entries).contains_key(entry.name@),
        entries_map(entries.insert(at, entry)) == entries_map(entries).insert(
            entry.name@,
            entry.value,
        ),
{
    let after = entries.insert(at, entry);
    order::lemma_not_before_itself(entry.name@);
    assert forall|i: int, j: int| 0 <= i < j < after.len() implies order::bytes_before(
        (#[trigger] after[i]).name@,
        (#[trigger] after[j]).name@,
    ) by {
        let from_i = if i < at {
            i
        } else {
            i - 1
        };
        let from_j = if j < at {
            j
        } else {
            j - 1
        };
        if i != at {
            assert(after[i] == entries[from_i]);
        }
        if j != at {
            assert(after[j] == entries[from_j]);
        }
    }
    assert(entries_wf(after));
    assert(after[at] == entry);
    lemma_entry(after, at);
    assert forall|name: Seq<u8>| #[trigger] entries_map(after).contains_key(name) <==> entries_map(
        entries,
    ).insert(entry.name@, entry.value).contains_key(name) by {
        if entries_map(after).contains_key(name) && name != entry.name@ {
            let i = choose|i: int| at_name(after, name, i);
            let from = if i < at {
                i
            } else {
                i - 1
            };
            assert(at_name(entries, name, from));
        }
        if entries_map(entries).contains_key(name) {
            let i = choose|i: int| at_name(entries, name, i);
            let to = if i < at {
                i
            } else {
                i + 1
            };
            assert(at_name(after, name, to));
        }
    }
    assert forall|name: Seq<u8>| entries_map(after).contains_key(name) implies #[trigger] entries_map(
        after,
    )[name] == entries_map(entries).insert(entry.name@, entry.value)[name] by {
        if name != entry.name@ {
            let i = choose|i: int| at_name(after, name, i);
            let from = if i < at {
                i
            } else {
                i - 1
            };
            lemma_entry(after, i);
            lemma_entry(entries, from);
        }
    }
    assert(entries_map(after) =~= entries_map(entries).insert(entry.name@, entry.value));
}

/// The entries without the one at `at`.
proof fn lemma_removed<V>(entries: Seq<Entry<V>>, at: int)
    requires
        entries_wf(entries),
        0 <= at < entries.len(),
    ensures
        entries_wf(entries.remove(at)),
        entries_map(entries.remove(at)) == entries_map(entries).remove(entries[at].name@),
{
    let after = entries.remove(at);
    let gone = entries[at];
    order::lemma_not_before_itself(gone.name@);
    assert forall|i: int, j: int| 0 <= i < j < after.len() implies order::bytes_before(
        (#[trigger] after[i]).name@,
        (#[trigger] after[j]).name@,
    ) by {
        let from_i = if i < at {
            i
        } else {
            i + 1
        };
        let from_j = if j < at {
            j
        } else {
            j + 1
        };
        assert(after[i] == entries[from_i]);
        assert(after[j] == entries[from_j]);
    }
    assert(entries_wf(after));
    assert forall|name: Seq<u8>| #[trigger] entries_map(after).contains_key(name) <==> entries_map(
        entries,
    ).remove(gone.name@).contains_key(name) by {
        if entries_map(after).contains_key(name) {
            let i = choose|i: int| at_name(after, name, i);
            let from = if i < at {
                i
            } else {
                i + 1
            };
            assert(at_name(entries, name, from));
            assert(name != gone.name@);
        }
        if entries_map(entries).contains_key(name) && name != gone.name@ {
            let i = choose|i: int| at_name(entries, name, i);
            let to = if i < at {
                i
            } else {
                i - 1
            };
            assert(at_name(after, name, to));
        }
    }
    assert forall|name: Seq<u8>| entries_map(after).contains_key(name) implies #[trigger] entries_map(
        after,
    )[name] == entries_map(entries).remove(gone.name@)[name] by {
        let i = choose|i: int| at_name(after, name, i);
        let from = if i < at {
            i
        } else {
            i + 1
        };
        lemma_entry(after, i);
        lemma_entry(entries, from);
    }
    assert(entries_map(after) =~= entries_map(entries).remove(gone.name@));
}

/// The number of names in the map is the number of entries.
proof fn lemma_entry_count<V>(entries: Seq<Entry<V>>)
    requires
        entries_wf(entries),
    ensures
        entries_map(entries).dom().finite(),
        entries_map(entries).dom().len() == entries.len(),
    decreases entries.len(),
{
    if entries.len() == 0 {
        assert(entries_map(entries).dom() =~= Set::<Seq<u8>>::empty());
    } else {
        let last = entries.len() - 1;
        lemma_removed(entries, last);
        lemma_entry_count(entries.remove(last));
        lemma_entry(entries, last);
        let name = entries[last].name@;
        assert(entries_map(entries).dom() =~= entries_map(entries).remove(name).dom().insert(name));
    }
}

impl<V> View for NameMap<V> {
    type V = Map<Seq<u8>, V>;

    closed spec fn view(&self) -> Map<Seq<u8>, V> {
        entries_map(self.entries@)
    }
}

impl<V> NameMap<V> {
    pub closed spec fn wf(&self) -> bool {
        entries_wf(self.entries@)
    }

    /// The names in dictionary order.
    pub closed spec fn names(&self) -> Seq<Seq<u8>> {
        entry_names(self.entries@)
    }

    /// The names are in order, and they are those of the map.
    pub proof fn lemma_names(&self)
        requires
            self.wf(),
        ensures
            in_order(self.names()),
            forall|name: Seq<u8>| #[trigger]
                self.names().contains(name) <==> self@.contains_key(name),
            self.names().len() == self@.dom().len(),
            self@.dom().finite(),
    {
        let names = self.names();
        lemma_entry_count(self.entries@);
        assert forall|i: int, j: int| 0 <= i < j < names.len() implies order::bytes_before(
            #[trigger] names[i],
            #[trigger] names[j],
        ) by {
            assert(order::bytes_before(self.entries@[i].name@, self.entries@[j].name@));
        }
        assert forall|name: Seq<u8>| #[trigger] names.contains(name) <==> self@.contains_key(
            name,
        ) by {
            if names.contains(name) {
                let i = choose|i: int| 0 <= i < names.len() && names[i] == name;
                assert(at_name(self.entries@, name, i));
            }
            if self@.contains_key(name) {
                let i = choose|i: int| at_name(self.entries@, name, i);
                assert(names[i] == name);
            }
        }
    }

    pub fn new() -> (map: Self)
        ensures
            map.wf(),
            map@ == Map::<Seq<u8>, V>::empty(),
            map.names() == Seq::<Seq<u8>>::empty(),
    {
        let map = NameMap { entries: Vec::new() };
        assert(map@ =~= Map::<Seq<u8>, V>::empty());
        assert(map.names() =~= Seq::<Seq<u8>>::empty());
        map
    }

    /// How many names the map holds.
    pub fn len(&self) -> (len: usize)
        requires
            self.wf(),
        ensures
            len == self@.dom().len(),
            len == self.names().len(),
            self@.dom().finite(),
    {
        proof {
            lemma_entry_count(self.entries@);
        }
        self.entries.len()
    }

    /// The first entry whose name is not before `name`.
    fn find(&self, name: &[u8]) -> (at: usize)
        requires
            self.wf(),
        ensures
            at <= self.entries@.len(),
            forall|i: int|
                0 <= i < at ==> order::bytes_before((#[trigger] self.entries@[i]).name@, name@),
            at < self.entries@.len() && self.entries@[at as int].name@ == name@
                <==> self@.contains_key(name@),
            !self@.contains_key(name@) ==> forall|i: int|
                at <= i < self.entries@.len() ==> order::bytes_before(
                    name@,
                    (#[trigger] self.entries@[i]).name@,
                ),
    {
        let mut at: usize = 0;
        while at < self.entries.len() && order::is_before(&self.entries[at].name, name)
            invariant
                at <= self.entries@.len(),
                forall|i: int|
                    0 <= i < at ==> order::bytes_before(
                        (#[trigger] self.entries@[i]).name@,
                        name@,
                    ),
            decreases self.entries@.len() - at,
        {
            at += 1;
        }
        proof {
            let entries = self.entries@;
            if at < entries.len() && entries[at as int].name@ == name@ {
                lemma_entry(entries, at as int);
            } else {
                assert forall|i: int| at <= i < entries.len() implies order::bytes_before(
                    name@,
                    (#[trigger] entries[i]).name@,
                ) by {
                    order::lemma_before_total(entries[at as int].name@, name@);
                    if i > at {
                        order::lemma_before_transitive(
                            name@,
                            entries[at as int].name@,
                            entries[i].name@,
                        );
                    }
                }
                order::lemma_not_before_itself(name@);
                assert(!self@.contains_key(name@));
            }
        }
        at
    }

    /// The value of `name`.
    pub fn get(&self, name: &[u8]) -> (value: Option<&V>)
        requires
            self.wf(),
        ensures
            match value {
                Some(found) => self@.contains_key(name@) && *found == self@[name@],
                None => !self@.contains_key(name@),
            },
    {
        let at: usize = self.find(name);
        if at < self.entries.len() && wire::bytes_equal(&self.entries[at].name, name) {
            proof {
                lemma_entry(self.entries@, at as int);
            }
            Some(&self.entries[at].value)
        } else {
            None
        }
    }

    /// Set the value of `name`. Returns the value that it had.
    pub fn insert(&mut self, name: Vec<u8>, value: V) -> (previous: Option<V>)
        requires
            old(self).wf(),
        ensures
            final(self).wf(),
            final(self)@ == old(self)@.insert(name@, value),
            previous == (if old(self)@.contains_key(name@) {
                Some(old(self)@[name@])
            } else {
                None
            }),
    {
        let at: usize = self.find(&name);
        let ghost before = self.entries@;
        let known: bool = at < self.entries.len() && wire::bytes_equal(
            &self.entries[at].name,
            &name,
        );
        if known {
            proof {
                lemma_entry(before, at as int);
                lemma_removed(before, at as int);
                assert(entries_map(before).remove(name@).insert(name@, value) =~= entries_map(
                    before,
                ).insert(name@, value));
            }
            let gone: Entry<V> = self.entries.remove(at);
            let ghost rest = self.entries@;
            let entry: Entry<V> = Entry { name, value };
            proof {
                assert forall|i: int| at <= i < rest.len() implies order::bytes_before(
                    entry.name@,
                    (#[trigger] rest[i]).name@,
                ) by {
                    assert(rest[i] == before[i + 1]);
                    assert(order::bytes_before(before[at as int].name@, before[i + 1].name@));
                }
                assert forall|i: int| 0 <= i < at implies order::bytes_before(
                    (#[trigger] rest[i]).name@,
                    entry.name@,
                ) by {
                    assert(rest[i] == before[i]);
                }
                lemma_inserted(rest, at as int, entry);
            }
            self.entries.insert(at, entry);
            Some(gone.value)
        } else {
            let entry: Entry<V> = Entry { name, value };
            proof {
                lemma_inserted(before, at as int, entry);
            }
            self.entries.insert(at, entry);
            None
        }
    }

    /// Remove `name`. Returns the value that it had.
    pub fn remove(&mut self, name: &[u8]) -> (previous: Option<V>)
        requires
            old(self).wf(),
        ensures
            final(self).wf(),
            final(self)@ == old(self)@.remove(name@),
            previous == (if old(self)@.contains_key(name@) {
                Some(old(self)@[name@])
            } else {
                None
            }),
    {
        let at: usize = self.find(name);
        let ghost before = self.entries@;
        if at < self.entries.len() && wire::bytes_equal(&self.entries[at].name, name) {
            proof {
                lemma_entry(before, at as int);
                lemma_removed(before, at as int);
            }
            let gone: Entry<V> = self.entries.remove(at);
            Some(gone.value)
        } else {
            assert(entries_map(before).remove(name@) =~= entries_map(before));
            None
        }
    }

    /// The name at a position in the order.
    pub fn name_at(&self, index: usize) -> (name: &Vec<u8>)
        requires
            self.wf(),
            index < self.names().len(),
        ensures
            name@ == self.names()[index as int],
            self@.contains_key(name@),
    {
        proof {
            lemma_entry(self.entries@, index as int);
        }
        &self.entries[index].name
    }

    /// Take the first name and its value out.
    pub fn take_first(&mut self) -> (first: Option<(Vec<u8>, V)>)
        requires
            old(self).wf(),
        ensures
            final(self).wf(),
            match first {
                Some((name, value)) => {
                    &&& old(self).names().len() > 0
                    &&& name@ == old(self).names()[0]
                    &&& old(self)@.contains_key(name@)
                    &&& value == old(self)@[name@]
                    &&& final(self)@ == old(self)@.remove(name@)
                    &&& final(self).names() == old(self).names().drop_first()
                },
                None => {
                    &&& old(self).names().len() == 0
                    &&& old(self)@ == Map::<Seq<u8>, V>::empty()
                    &&& *final(self) == *old(self)
                },
            },
    {
        let ghost before = self.entries@;
        if self.entries.len() == 0 {
            assert(self@ =~= Map::<Seq<u8>, V>::empty());
            return None;
        }
        proof {
            lemma_entry(before, 0);
            lemma_removed(before, 0);
        }
        let gone: Entry<V> = self.entries.remove(0);
        assert(self.names() =~= entry_names(before).drop_first());
        Some((gone.name, gone.value))
    }
}

} // verus!
