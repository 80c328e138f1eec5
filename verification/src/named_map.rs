//! Values under names.

use vstd::prelude::*;

verus! {

/// Values under names, at most one under each.
#[derive(Debug)]
pub struct NamedMap<T> {
    entries: Vec<(String, T)>,
}

/// The value under `name` among `entries`: that of the first entry so named.
pub open spec fn looked_up<T>(entries: Seq<(String, T)>, name: Seq<char>) -> Option<T>
    decreases entries.len(),
{
    if entries.len() == 0 {
        None
    } else {
        match looked_up(entries.drop_last(), name) {
            Some(value) => Some(value),
            None => if entries.last().0@ == name {
                Some(entries.last().1)
            } else {
                None
            },
        }
    }
}

impl<T> NamedMap<T> {
    #[verifier::type_invariant]
    spec fn names_are_distinct(self) -> bool {
        forall|i: int, j: int|
            0 <= i < j < self.entries@.len() ==> (#[trigger] self.entries@[i]).0@ != (
            #[trigger] self.entries@[j]).0@
    }

    /// The values, by the text of their names.
    pub closed spec fn view(self) -> Map<Seq<char>, T> {
        Map::new(
            |name: Seq<char>| looked_up(self.entries@, name) is Some,
            |name: Seq<char>| looked_up(self.entries@, name)->0,
        )
    }

    /// A map without values.
    pub fn new() -> (map: NamedMap<T>)
        ensures
            map@ == Map::<Seq<char>, T>::empty(),
    {
        let map: NamedMap<T> = NamedMap { entries: Vec::new() };
        assert(map@ =~= Map::<Seq<char>, T>::empty());
        map
    }

    /// The place of the entry named `name`, or the number of entries.
    fn place_of(&self, name: &str) -> (place: usize)
        ensures
            place <= self.entries@.len(),
            place < self.entries@.len() ==> self.entries@[place as int].0@ == name@,
            place == self.entries@.len() ==> forall|i: int|
                0 <= i < self.entries@.len() ==> (#[trigger] self.entries@[i]).0@ != name@,
    {
        let wanted: String = name.to_owned();
        let mut place: usize = 0;
        while place < self.entries.len() && self.entries[place].0 != wanted
            invariant
                place <= self.entries@.len(),
                wanted@ == name@,
                forall|i: int| 0 <= i < place ==> (#[trigger] self.entries@[i]).0@ != name@,
            decreases self.entries@.len() - place,
        {
            place = place + 1;
        }
        place
    }

    /// Puts `value` under `name`, in place of what was there.
    pub fn insert(&mut self, name: &str, value: T)
        ensures
            final(self)@ == old(self)@.insert(name@, value),
    {
        proof {
            use_type_invariant(&*self);
        }
        let place: usize = self.place_of(name);
        let ghost before = self.entries@;
        let entry: (String, T) = (name.to_owned(), value);
        let mut entries: Vec<(String, T)> = Vec::new();
        core::mem::swap(&mut entries, &mut self.entries);
        if place < entries.len() {
            entries[place] = entry;
        } else {
            entries.push(entry);
        }
        proof {
            assert forall|i: int, j: int| 0 <= i < j < entries@.len() implies (
            #[trigger] entries@[i]).0@ != (#[trigger] entries@[j]).0@ by {
                if i < before.len() && j < before.len() {
                    assert(before[i].0@ != before[j].0@);
                }
            }
            assert forall|wanted: Seq<char>| #[trigger] looked_up(entries@, wanted) == if wanted
                == name@ {
                Some(value)
            } else {
                looked_up(before, wanted)
            } by {
                lemma_looked_up(entries@, wanted);
                lemma_looked_up(before, wanted);
                if wanted == name@ {
                    assert(entries@[place as int].0@ == wanted);
                } else if looked_up(before, wanted) is Some {
                    let i = choose|i: int|
                        0 <= i < before.len() && (#[trigger] before[i]).0@ == wanted
                            && looked_up(before, wanted) == Some(before[i].1);
                    assert(entries@[i] == before[i]);
                } else if looked_up(entries@, wanted) is Some {
                    let i = choose|i: int|
                        0 <= i < entries@.len() && (#[trigger] entries@[i]).0@ == wanted
                            && looked_up(entries@, wanted) == Some(entries@[i].1);
                    assert(i != place);
                    assert(before[i].0@ == wanted);
                }
            }
        }
        self.entries = entries;
        assert(self@ =~= old(self)@.insert(name@, value));
    }

    /// The value under `name`.
    pub fn get(&self, name: &str) -> (value: Option<&T>)
        ensures
            match value {
                Some(found) => self@.contains_key(name@) && self@[name@] == *found,
                None => !self@.contains_key(name@),
            },
    {
        proof {
            use_type_invariant(self);
            lemma_looked_up(self.entries@, name@);
        }
        let place: usize = self.place_of(name);
        if place < self.entries.len() {
            Some(&self.entries[place].1)
        } else {
            None
        }
    }
}

/// Looking up a name among distinct ones finds the entry so named, if there is one.
proof fn lemma_looked_up<T>(entries: Seq<(String, T)>, name: Seq<char>)
    requires
        forall|i: int, j: int|
            0 <= i < j < entries.len() ==> (#[trigger] entries[i]).0@ != (#[trigger] entries[j]).0@,
    ensures
        looked_up(entries, name) is Some ==> exists|i: int|
            0 <= i < entries.len() && (#[trigger] entries[i]).0@ == name && looked_up(entries, name)
                == Some(entries[i].1),
        forall|i: int|
            0 <= i < entries.len() && (#[trigger] entries[i]).0@ == name ==> looked_up(
                entries,
                name,
            ) == Some(entries[i].1),
    decreases entries.len(),
{
    if entries.len() > 0 {
        let shorter = entries.drop_last();
        assert forall|i: int, j: int| 0 <= i < j < shorter.len() implies (
        #[trigger] shorter[i]).0@ != (#[trigger] shorter[j]).0@ by {
            assert(entries[i].0@ != entries[j].0@);
        }
        lemma_looked_up(shorter, name);
        if looked_up(shorter, name) is Some {
            let i = choose|i: int|
                0 <= i < shorter.len() && (#[trigger] shorter[i]).0@ == name && looked_up(
                    shorter,
                    name,
                ) == Some(shorter[i].1);
            assert(entries[i].0@ == name);
        } else if looked_up(entries, name) is Some {
            assert(entries[entries.len() - 1].0@ == name);
        }
        assert forall|i: int| 0 <= i < entries.len() && (#[trigger] entries[i]).0@
            == name implies looked_up(entries, name) == Some(entries[i].1) by {
            if i < shorter.len() {
                assert(shorter[i].0@ == name);
            } else if looked_up(shorter, name) is Some {
                let k = choose|k: int|
                    0 <= k < shorter.len() && (#[trigger] shorter[k]).0@ == name && looked_up(
                        shorter,
                        name,
                    ) == Some(shorter[k].1);
                assert(entries[k].0@ != entries[i].0@);
            }
        }
    }
}

} // verus!
