//! A map from names to values that keeps the order in which the names came.

use crate::text::same_text;
use vstd::prelude::*;

verus! {

/// Values by name. A name keeps the place at which it first came; its value is the one that came
/// last.
pub struct NamedMap<V> {
    pub entries: Vec<(String, V)>,
}

/// The names of a listing.
pub open spec fn names<V>(list: Seq<(Seq<char>, V)>) -> Seq<Seq<char>> {
    list.map_values(|entry: (Seq<char>, V)| entry.0)
}

/// The listing with `value` under `name`: in the place of the entry of that name, or at the end
/// where there is none.
pub open spec fn upsert<V>(list: Seq<(Seq<char>, V)>, name: Seq<char>, value: V) -> Seq<
    (Seq<char>, V),
>
    decreases list.len(),
{
    if list.len() == 0 {
        seq![(name, value)]
    } else if list[0].0 == name {
        seq![(name, value)] + list.drop_first()
    } else {
        seq![list[0]] + upsert(list.drop_first(), name, value)
    }
}

/// The listing with `f` applied to each value.
pub open spec fn mapped<V, W>(list: Seq<(Seq<char>, V)>, f: spec_fn(V) -> W) -> Seq<
    (Seq<char>, W),
> {
    list.map_values(|entry: (Seq<char>, V)| (entry.0, f(entry.1)))
}

/// The value under `name`.
pub open spec fn lookup<V>(list: Seq<(Seq<char>, V)>, name: Seq<char>) -> Option<V>
    decreases list.len(),
{
    if list.len() == 0 {
        None
    } else if list[0].0 == name {
        Some(list[0].1)
    } else {
        lookup(list.drop_first(), name)
    }
}

impl<V> NamedMap<V> {
    /// The names with their values, in order.
    pub open spec fn listing(self) -> Seq<(Seq<char>, V)> {
        self.entries@.map_values(|entry: (String, V)| (entry.0@, entry.1))
    }

    /// No name occurs twice.
    pub open spec fn distinct(self) -> bool {
        names(self.listing()).no_duplicates()
    }

    /// The map without names.
    pub fn new() -> (map: Self)
        ensures
            map.listing() == Seq::<(Seq<char>, V)>::empty(),
            map.distinct(),
    {
        let map = NamedMap { entries: Vec::new() };
        assert(map.listing() =~= Seq::<(Seq<char>, V)>::empty());
        map
    }

    /// The place of `name`, or the number of names where it is not among them.
    fn find(&self, name: &str) -> (place: usize)
        ensures
            place <= self.listing().len(),
            forall|i: int| 0 <= i < place ==> #[trigger] self.listing()[i].0 != name@,
            place < self.listing().len() ==> self.listing()[place as int].0 == name@,
    {
        let mut i: usize = 0;
        while i < self.entries.len()
            invariant
                i <= self.entries@.len(),
                forall|k: int| 0 <= k < i ==> #[trigger] self.listing()[k].0 != name@,
            decreases self.entries@.len() - i,
        {
            if same_text(self.entries[i].0.as_str(), name) {
                return i;
            }
            i += 1;
        }
        i
    }

    /// Puts `value` under `name`.
    pub fn insert(&mut self, name: String, value: V)
        ensures
            final(self).listing() == upsert(old(self).listing(), name@, value),
            old(self).distinct() ==> final(self).distinct(),
    {
        let i: usize = self.find(name.as_str());
        let ghost before = self.listing();
        let ghost text = name@;
        proof {
            lemma_upsert_at(before, text, value, i as int);
            if self.distinct() {
                lemma_upsert_distinct(before, text, value);
            }
        }
        if i < self.entries.len() {
            self.entries.set(i, (name, value));
            assert(self.listing() =~= before.update(i as int, (text, value)));
        } else {
            self.entries.push((name, value));
            assert(self.listing() =~= before.push((text, value)));
        }
    }

    /// The value under `name`.
    pub fn get(&self, name: &str) -> (value: Option<&V>)
        ensures
            value is Some <==> lookup(self.listing(), name@) is Some,
            value matches Some(v) ==> lookup(self.listing(), name@) == Some(*v),
    {
        let i: usize = self.find(name);
        proof {
            lemma_lookup_at(self.listing(), name@, i as int);
        }
        if i < self.entries.len() {
            Some(&self.entries[i].1)
        } else {
            None
        }
    }
}

/// An upsert acts at the first place of the name.
pub proof fn lemma_upsert_at<V>(list: Seq<(Seq<char>, V)>, name: Seq<char>, value: V, i: int)
    requires
        0 <= i <= list.len(),
        forall|k: int| 0 <= k < i ==> #[trigger] list[k].0 != name,
        i < list.len() ==> list[i].0 == name,
    ensures
        i < list.len() ==> upsert(list, name, value) == list.update(i, (name, value)),
        i == list.len() ==> upsert(list, name, value) == list.push((name, value)),
    decreases list.len(),
{
    if list.len() == 0 {
        assert(upsert(list, name, value) =~= list.push((name, value)));
    } else if i == 0 {
        assert(upsert(list, name, value) =~= list.update(0, (name, value)));
    } else {
        let rest = list.drop_first();
        assert forall|k: int| 0 <= k < i - 1 implies #[trigger] rest[k].0 != name by {
            assert(rest[k] == list[k + 1]);
        }
        assert(list[0].0 != name);
        lemma_upsert_at(rest, name, value, i - 1);
        if i < list.len() {
            assert(upsert(list, name, value) =~= list.update(i, (name, value)));
        } else {
            assert(upsert(list, name, value) =~= list.push((name, value)));
        }
    }
}

/// A lookup finds the entry at the first place of the name.
pub proof fn lemma_lookup_at<V>(list: Seq<(Seq<char>, V)>, name: Seq<char>, i: int)
    requires
        0 <= i <= list.len(),
        forall|k: int| 0 <= k < i ==> #[trigger] list[k].0 != name,
        i < list.len() ==> list[i].0 == name,
    ensures
        i < list.len() ==> lookup(list, name) == Some(list[i].1),
        i == list.len() ==> lookup(list, name) is None,
    decreases list.len(),
{
    if list.len() > 0 && i > 0 {
        let rest = list.drop_first();
        assert forall|k: int| 0 <= k < i - 1 implies #[trigger] rest[k].0 != name by {
            assert(rest[k] == list[k + 1]);
        }
        assert(list[0].0 != name);
        lemma_lookup_at(rest, name, i - 1);
    }
}

/// The first place of a name in a listing, or the length where it is not in it.
pub proof fn lemma_first_place<V>(list: Seq<(Seq<char>, V)>, name: Seq<char>) -> (i: int)
    ensures
        0 <= i <= list.len(),
        forall|k: int| 0 <= k < i ==> #[trigger] list[k].0 != name,
        i < list.len() ==> list[i].0 == name,
    decreases list.len(),
{
    if list.len() == 0 || list[0].0 == name {
        0
    } else {
        let rest = list.drop_first();
        let i = lemma_first_place(rest, name);
        assert forall|k: int| 0 <= k < i + 1 implies #[trigger] list[k].0 != name by {
            if k > 0 {
                assert(rest[k - 1] == list[k]);
            }
        }
        i + 1
    }
}

/// An upsert puts in no second entry of a name.
pub proof fn lemma_upsert_distinct<V>(list: Seq<(Seq<char>, V)>, name: Seq<char>, value: V)
    requires
        names(list).no_duplicates(),
    ensures
        names(upsert(list, name, value)).no_duplicates(),
{
    let i = lemma_first_place(list, name);
    lemma_upsert_at(list, name, value, i);
    let after = upsert(list, name, value);
    assert forall|a: int, b: int|
        0 <= a < b < names(after).len() implies #[trigger] names(after)[a] != #[trigger] names(
        after,
    )[b] by {
        assert(i < list.len() ==> names(after) =~= names(list));
        if b < list.len() {
            assert(names(list)[a] != names(list)[b]);
        } else {
            assert(list[a].0 != name);
        }
    }
}

/// Mapping the values of a listing commutes with an upsert.
pub proof fn lemma_upsert_mapped<V, W>(
    list: Seq<(Seq<char>, V)>,
    name: Seq<char>,
    value: V,
    f: spec_fn(V) -> W,
)
    ensures
        mapped(upsert(list, name, value), f) == upsert(mapped(list, f), name, f(value)),
    decreases list.len(),
{
    if list.len() > 0 {
        assert(mapped(list, f).drop_first() =~= mapped(list.drop_first(), f));
        lemma_upsert_mapped(list.drop_first(), name, value, f);
    }
    assert(mapped(upsert(list, name, value), f) =~= upsert(mapped(list, f), name, f(value)));
}

/// Mapping the values of a listing commutes with a lookup.
pub proof fn lemma_lookup_mapped<V, W>(
    list: Seq<(Seq<char>, V)>,
    name: Seq<char>,
    f: spec_fn(V) -> W,
)
    ensures
        lookup(mapped(list, f), name) == (match lookup(list, name) {
            Some(value) => Some(f(value)),
            None => None,
        }),
    decreases list.len(),
{
    if list.len() > 0 {
        assert(mapped(list, f).drop_first() =~= mapped(list.drop_first(), f));
        lemma_lookup_mapped(list.drop_first(), name, f);
    }
}

/// What was put in under a name is what is found under it; under every other name, what was
/// found before still is.
pub proof fn law_lookup_after_upsert<V>(
    list: Seq<(Seq<char>, V)>,
    name: Seq<char>,
    value: V,
    other: Seq<char>,
)
    ensures
        lookup(upsert(list, name, value), other) == (if other == name {
            Some(value)
        } else {
            lookup(list, other)
        }),
    decreases list.len(),
{
    let after = upsert(list, name, value);
    if list.len() == 0 {
        assert(after.drop_first() =~= Seq::<(Seq<char>, V)>::empty());
        reveal_with_fuel(lookup, 2);
    } else if list[0].0 == name {
        assert(after.drop_first() =~= list.drop_first());
    } else {
        assert(after.drop_first() =~= upsert(list.drop_first(), name, value));
        law_lookup_after_upsert(list.drop_first(), name, value, other);
    }
}

/// A listing holds the entries one by one, and names and mapped values are taken from it one by
/// one. A map is distinct where no two of its entries have the same name.
pub proof fn law_listing_holds_the_entries<V, W>(map: NamedMap<V>, f: spec_fn(V) -> W, i: int)
    requires
        0 <= i < map.entries@.len(),
    ensures
        map.listing().len() == map.entries@.len(),
        map.listing()[i] == (map.entries@[i].0@, map.entries@[i].1),
        names(map.listing()).len() == map.entries@.len(),
        names(map.listing())[i] == map.entries@[i].0@,
        mapped(map.listing(), f).len() == map.entries@.len(),
        mapped(map.listing(), f)[i] == (map.entries@[i].0@, f(map.entries@[i].1)),
        map.distinct() <==> forall|a: int, b: int|
            0 <= a < b < map.entries@.len() ==> (#[trigger] map.entries@[a]).0@ != (
            #[trigger] map.entries@[b]).0@,
{
    let all = names(map.listing());
    if map.distinct() {
        assert forall|a: int, b: int| 0 <= a < b < map.entries@.len() implies (
        #[trigger] map.entries@[a]).0@ != (#[trigger] map.entries@[b]).0@ by {
            assert(all[a] != all[b]);
        }
    }
    if forall|a: int, b: int|
        0 <= a < b < map.entries@.len() ==> (#[trigger] map.entries@[a]).0@ != (
        #[trigger] map.entries@[b]).0@ {
        assert forall|a: int, b: int| 0 <= a < b < all.len() implies #[trigger] all[a]
            != #[trigger] all[b] by {
            assert(map.entries@[a].0@ != map.entries@[b].0@);
        }
        assert forall|a: int, b: int|
            0 <= a < all.len() && 0 <= b < all.len() && a != b implies #[trigger] all[a]
            != #[trigger] all[b] by {
            if a < b {
                assert(all[a] != all[b]);
            } else {
                assert(all[b] != all[a]);
            }
        }
    }
}

/// What is put in under a new name comes last; under a name that is there already, it takes the
/// place of what was there. No other entry moves or changes.
pub proof fn law_upsert_touches_one_entry<V>(
    list: Seq<(Seq<char>, V)>,
    name: Seq<char>,
    value: V,
    i: int,
)
    requires
        0 <= i < list.len(),
    ensures
        list[i].0 != name ==> upsert(list, name, value)[i] == list[i],
        (forall|k: int| 0 <= k < list.len() ==> (#[trigger] list[k]).0 != name) ==> upsert(
            list,
            name,
            value,
        ) == list.push((name, value)),
        list[i].0 == name && (forall|k: int| 0 <= k < i ==> (#[trigger] list[k]).0 != name)
            ==> upsert(list, name, value).len() == list.len() && upsert(list, name, value)[i] == (
            name,
            value,
        ),
{
    let place = lemma_first_place(list, name);
    lemma_upsert_at(list, name, value, place);
    if list[i].0 == name && forall|k: int| 0 <= k < i ==> (#[trigger] list[k]).0 != name {
        assert(place == i) by {
            if place < i {
                assert(list[place].0 != name);
            }
        }
    }
    if forall|k: int| 0 <= k < list.len() ==> (#[trigger] list[k]).0 != name {
        assert(place == list.len()) by {
            if place < list.len() {
                assert(list[place].0 != name);
            }
        }
    }
}

/// What is found under a name is the value of the first entry of that name, and nothing is found
/// only where there is no such entry.
pub proof fn law_lookup_finds_the_first<V>(list: Seq<(Seq<char>, V)>, name: Seq<char>)
    ensures
        match lookup(list, name) {
            Some(value) => exists|i: int|
                0 <= i < list.len() && #[trigger] list[i] == (name, value) && forall|k: int|
                    0 <= k < i ==> (#[trigger] list[k]).0 != name,
            None => forall|k: int| 0 <= k < list.len() ==> (#[trigger] list[k]).0 != name,
        },
{
    let place = lemma_first_place(list, name);
    lemma_lookup_at(list, name, place);
    if place < list.len() {
        assert(list[place] == (name, lookup(list, name)->0));
    }
}

} // verus!
