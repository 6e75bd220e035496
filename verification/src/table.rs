//! A table of named values that keeps the order in which names came in.
//!
//! No name occurs twice. The model of a table is a map from name to value;
//! the order of the names is part of what the table states about itself, so
//! that listing a table always gives the same answer.

use vstd::prelude::*;
use vstd::string::StringExecFns;

verus! {

#[derive(Debug, Clone)]
struct Slot<V> {
    name: String,
    value: V,
}

/// Values by name, in the order in which the names were first inserted.
#[derive(Debug)]
pub struct InstanceTable<V> {
    slots: Vec<Slot<V>>,
}

spec fn slot_names<V>(slots: Seq<Slot<V>>) -> Seq<Seq<char>> {
    Seq::new(slots.len(), |i: int| slots[i].name@)
}

spec fn slots_map<V>(slots: Seq<Slot<V>>) -> Map<Seq<char>, V>
    decreases slots.len(),
{
    if slots.len() == 0 {
        Map::empty()
    } else {
        slots_map(slots.drop_last()).insert(slots.last().name@, slots.last().value)
    }
}

/// `m` has exactly the names of `slots`, each with the value of its slot.
spec fn tabulates<V>(slots: Seq<Slot<V>>, m: Map<Seq<char>, V>) -> bool {
    &&& forall|i: int|
        0 <= i < slots.len() ==> m.contains_key((#[trigger] slots[i]).name@) && m[slots[i].name@]
            == slots[i].value
    &&& forall|k: Seq<char>| #[trigger] m.contains_key(k) ==> slot_names(slots).contains(k)
}

proof fn lemma_slots_map<V>(slots: Seq<Slot<V>>)
    requires
        slot_names(slots).no_duplicates(),
    ensures
        tabulates(slots, slots_map(slots)),
        slots_map(slots).dom().finite(),
        slots_map(slots).dom().len() == slots.len(),
        slots_map(slots).dom() == slot_names(slots).to_set(),
    decreases slots.len(),
{
    let m = slots_map(slots);
    let names = slot_names(slots);
    if slots.len() > 0 {
        let t = slots.drop_last();
        let last = slots.last();
        let mt = slots_map(t);
        assert(slot_names(t) =~= names.drop_last());
        assert forall|i: int, j: int| 0 <= i < j < slot_names(t).len() implies slot_names(t)[i]
            != slot_names(t)[j] by {
            assert(names[i] != names[j]);
        }
        lemma_slots_map(t);
        if mt.contains_key(last.name@) {
            let i = choose|i: int| 0 <= i < slot_names(t).len() && slot_names(t)[i] == last.name@;
            assert(names[i] == names[slots.len() - 1]);
        }
        assert forall|i: int| 0 <= i < slots.len() implies m.contains_key(
            (#[trigger] slots[i]).name@,
        ) && m[slots[i].name@] == slots[i].value by {
            if i < t.len() {
                assert(t[i] == slots[i]);
                assert(names[i] != names[slots.len() - 1]);
            }
        }
        assert forall|k: Seq<char>| #[trigger] m.contains_key(k) implies names.contains(k) by {
            if k == last.name@ {
                assert(names[slots.len() - 1] == k);
            } else {
                let i = choose|i: int| 0 <= i < slot_names(t).len() && slot_names(t)[i] == k;
                assert(names[i] == k);
            }
        }
        assert(m.dom() =~= names.to_set()) by {
            assert forall|k: Seq<char>| names.to_set().contains(k) implies m.dom().contains(k) by {
                let i = choose|i: int| 0 <= i < names.len() && names[i] == k;
                assert(m.contains_key(slots[i].name@));
            }
        }
    } else {
        assert(m.dom() =~= names.to_set());
    }
}

proof fn lemma_tabulates_unique<V>(slots: Seq<Slot<V>>, m1: Map<Seq<char>, V>, m2: Map<Seq<char>, V>)
    requires
        tabulates(slots, m1),
        tabulates(slots, m2),
    ensures
        m1 == m2,
{
    let names = slot_names(slots);
    assert forall|k: Seq<char>| m1.contains_key(k) <==> m2.contains_key(k) by {
        if m1.contains_key(k) {
            let i = choose|i: int| 0 <= i < names.len() && names[i] == k;
            assert(m2.contains_key(slots[i].name@));
        }
        if m2.contains_key(k) {
            let i = choose|i: int| 0 <= i < names.len() && names[i] == k;
            assert(m1.contains_key(slots[i].name@));
        }
    }
    assert forall|k: Seq<char>| m1.contains_key(k) implies m1[k] == m2[k] by {
        let i = choose|i: int| 0 <= i < names.len() && names[i] == k;
        assert(m1[slots[i].name@] == slots[i].value);
        assert(m2[slots[i].name@] == slots[i].value);
    }
    assert(m1 =~= m2);
}

/// Where the slot of `name` stands, if there is one.
fn find_slot<V>(slots: &Vec<Slot<V>>, name: &String) -> (r: Option<usize>)
    ensures
        match r {
            Some(i) => i < slots.len() && slots[i as int].name@ == name@,
            None => !slot_names(slots@).contains(name@),
        },
{
    let mut i: usize = 0;
    while i < slots.len()
        invariant
            i <= slots.len(),
            forall|j: int| 0 <= j < i ==> slot_names(slots@)[j] != name@,
        decreases slots.len() - i,
    {
        if slots[i].name == *name {
            return Some(i);
        }
        assert(slot_names(slots@)[i as int] == slots@[i as int].name@);
        i += 1;
    }
    None
}

impl<V: Clone> Clone for InstanceTable<V> {
    /// A table with the same names in the same order, each with a clone of
    /// its value.
    fn clone(&self) -> (table: Self)
        ensures
            table.names() == self.names(),
    {
        proof {
            use_type_invariant(self);
        }
        let mut slots: Vec<Slot<V>> = Vec::with_capacity(self.slots.len());
        let mut i: usize = 0;
        while i < self.slots.len()
            invariant
                i <= self.slots.len(),
                slots@.len() == i,
                slot_names(slots@) == slot_names(self.slots@).take(i as int),
            decreases self.slots.len() - i,
        {
            let slot = &self.slots[i];
            let ghost before = slots@;
            let name = slot.name.clone();
            slots.push(Slot { name, value: slot.value.clone() });
            proof {
                assert(slots@.len() == i + 1);
                assert forall|j: int| 0 <= j < i + 1 implies slot_names(slots@)[j] == slot_names(
                    self.slots@,
                ).take(i + 1)[j] by {
                    if j < i {
                        assert(slots@[j] == before[j]);
                        assert(slot_names(before)[j] == slot_names(self.slots@).take(i as int)[j]);
                    }
                }
                assert(slot_names(slots@) =~= slot_names(self.slots@).take(i + 1));
            }
            i += 1;
        }
        assert(slot_names(slots@) =~= slot_names(self.slots@));
        InstanceTable { slots }
    }
}

impl<V> View for InstanceTable<V> {
    type V = Map<Seq<char>, V>;

    /// The values of the table by name.
    closed spec fn view(&self) -> Map<Seq<char>, V> {
        slots_map(self.slots@)
    }
}

impl<V> InstanceTable<V> {
    #[verifier::type_invariant]
    spec fn well_formed(&self) -> bool {
        slot_names(self.slots@).no_duplicates()
    }

    /// The names of the table, in the order in which they were inserted.
    pub closed spec fn names(&self) -> Seq<Seq<char>> {
        slot_names(self.slots@)
    }

    /// What ties the names of a table to its map: every name once, and the
    /// names of the map and no others.
    pub open spec fn consistent(&self) -> bool {
        &&& self.names().no_duplicates()
        &&& self@.dom() == self.names().to_set()
        &&& self@.dom().finite()
        &&& self@.dom().len() == self.names().len()
    }

    /// An empty table.
    pub fn new() -> (table: Self)
        ensures
            table@ == Map::<Seq<char>, V>::empty(),
            table.names() == Seq::<Seq<char>>::empty(),
            table.consistent(),
    {
        let table = InstanceTable { slots: Vec::new() };
        proof {
            assert(table.names() =~= Seq::<Seq<char>>::empty());
            lemma_slots_map(table.slots@);
        }
        table
    }

    /// The number of names.
    pub fn len(&self) -> (n: usize)
        ensures
            n == self.names().len(),
            self.consistent(),
    {
        proof {
            use_type_invariant(self);
            lemma_slots_map(self.slots@);
        }
        self.slots.len()
    }

    /// Whether the table has no name.
    pub fn is_empty(&self) -> (empty: bool)
        ensures
            empty == (self.names().len() == 0),
            empty == (self@ == Map::<Seq<char>, V>::empty()),
            self.consistent(),
    {
        proof {
            use_type_invariant(self);
            lemma_slots_map(self.slots@);
            if self.slots@.len() == 0 {
                assert(self@ =~= Map::<Seq<char>, V>::empty());
            } else {
                assert(self@.contains_key(self.slots@[0].name@));
            }
        }
        self.slots.len() == 0
    }

    /// Whether `name` is in the table.
    pub fn contains_key(&self, name: &str) -> (found: bool)
        ensures
            found == self@.contains_key(name@),
            self.consistent(),
    {
        proof {
            use_type_invariant(self);
            lemma_slots_map(self.slots@);
        }
        let key = String::from_str(name);
        match find_slot(&self.slots, &key) {
            Some(i) => {
                assert(self@.contains_key(self.slots@[i as int].name@));
                true
            },
            None => false,
        }
    }

    /// The value of `name`, if the table has it.
    pub fn get(&self, name: &str) -> (found: Option<&V>)
        ensures
            match found {
                Some(value) => self@.contains_key(name@) && *value == self@[name@],
                None => !self@.contains_key(name@),
            },
            self.consistent(),
    {
        proof {
            use_type_invariant(self);
            lemma_slots_map(self.slots@);
        }
        let key = String::from_str(name);
        match find_slot(&self.slots, &key) {
            Some(i) => {
                assert(self@.contains_key(self.slots@[i as int].name@));
                Some(&self.slots[i].value)
            },
            None => None,
        }
    }

    /// The name and the value at position `i` of the table's order.
    pub fn entry_at(&self, i: usize) -> (entry: (&String, &V))
        requires
            i < self.names().len(),
        ensures
            entry.0@ == self.names()[i as int],
            self@.contains_key(entry.0@),
            *entry.1 == self@[entry.0@],
            self.consistent(),
    {
        proof {
            use_type_invariant(self);
            lemma_slots_map(self.slots@);
            assert(self@.contains_key(self.slots@[i as int].name@));
        }
        (&self.slots[i].name, &self.slots[i].value)
    }

    /// The names of the table, in its order.
    pub fn keys(&self) -> (keys: Vec<&String>)
        ensures
            keys@.len() == self.names().len(),
            forall|i: int| 0 <= i < keys@.len() ==> (#[trigger] keys@[i])@ == self.names()[i],
            self.consistent(),
    {
        proof {
            use_type_invariant(self);
            lemma_slots_map(self.slots@);
        }
        let mut keys: Vec<&String> = Vec::with_capacity(self.slots.len());
        let mut i: usize = 0;
        while i < self.slots.len()
            invariant
                i <= self.slots.len(),
                keys@.len() == i,
                forall|j: int| 0 <= j < i ==> (#[trigger] keys@[j])@ == slot_names(self.slots@)[j],
            decreases self.slots.len() - i,
        {
            keys.push(&self.slots[i].name);
            i += 1;
        }
        keys
    }

    /// Sets the value of `name`, and gives back the value it had. A new name
    /// goes to the end of the order; a known name keeps its place.
    pub fn insert(&mut self, name: String, value: V) -> (previous: Option<V>)
        ensures
            final(self)@ == old(self)@.insert(name@, value),
            previous == if old(self)@.contains_key(name@) {
                Some(old(self)@[name@])
            } else {
                None::<V>
            },
            final(self).names() == if old(self)@.contains_key(name@) {
                old(self).names()
            } else {
                old(self).names().push(name@)
            },
            final(self).consistent(),
    {
        proof {
            use_type_invariant(&*self);
            lemma_slots_map(self.slots@);
        }
        let mut slots: Vec<Slot<V>> = Vec::new();
        std::mem::swap(&mut slots, &mut self.slots);
        let ghost before = slots@;
        let ghost target = slots_map(before).insert(name@, value);
        let previous = match find_slot(&slots, &name) {
            Some(i) => {
                assert(slots_map(before).contains_key(before[i as int].name@));
                let mut held = value;
                std::mem::swap(&mut held, &mut slots[i].value);
                proof {
                    assert(slot_names(slots@) =~= slot_names(before));
                    assert forall|k: Seq<char>| #[trigger]
                        target.contains_key(k) implies slot_names(slots@).contains(k) by {}
                    assert forall|j: int| 0 <= j < slots@.len() implies target.contains_key(
                        (#[trigger] slots@[j]).name@,
                    ) && target[slots@[j].name@] == slots@[j].value by {
                        if j != i {
                            assert(slots@[j] == before[j]);
                            assert(slot_names(before)[j] != slot_names(before)[i as int]);
                        }
                    }
                }
                Some(held)
            },
            None => {
                slots.push(Slot { name, value });
                proof {
                    assert(slot_names(slots@) =~= slot_names(before).push(name@));
                    assert(slots@.drop_last() =~= before);
                }
                None
            },
        };
        proof {
            lemma_slots_map(slots@);
            if slots_map(before).contains_key(name@) {
                lemma_tabulates_unique(slots@, slots_map(slots@), target);
            }
        }
        self.slots = slots;
        previous
    }

    /// Takes `name` out of the table and gives back the value it had. The
    /// other names keep their order.
    pub fn remove(&mut self, name: &str) -> (previous: Option<V>)
        ensures
            final(self)@ == old(self)@.remove(name@),
            previous == if old(self)@.contains_key(name@) {
                Some(old(self)@[name@])
            } else {
                None::<V>
            },
            final(self).names() == if old(self)@.contains_key(name@) {
                old(self).names().remove(old(self).names().index_of(name@))
            } else {
                old(self).names()
            },
            final(self).consistent(),
    {
        proof {
            use_type_invariant(&*self);
            lemma_slots_map(self.slots@);
        }
        let mut slots: Vec<Slot<V>> = Vec::new();
        std::mem::swap(&mut slots, &mut self.slots);
        let ghost before = slots@;
        let ghost target = slots_map(before).remove(name@);
        let key = String::from_str(name);
        let previous = match find_slot(&slots, &key) {
            Some(i) => {
                assert(slots_map(before).contains_key(before[i as int].name@));
                let slot = slots.remove(i);
                proof {
                    let names = slot_names(before);
                    assert(slot_names(slots@) =~= names.remove(i as int));
                    assert(names[i as int] == name@);
                    assert(names[names.index_of(name@)] == name@);
                    assert(names.index_of(name@) == i);
                    assert forall|a: int, b: int|
                        0 <= a < b < slot_names(slots@).len() implies slot_names(slots@)[a]
                        != slot_names(slots@)[b] by {
                        let a2 = if a < i { a } else { a + 1 };
                        let b2 = if b < i { b } else { b + 1 };
                        assert(names[a2] != names[b2]);
                    }
                    assert forall|k: Seq<char>| #[trigger]
                        target.contains_key(k) implies slot_names(slots@).contains(k) by {
                        let a = choose|a: int| 0 <= a < names.len() && names[a] == k;
                        let a2 = if a < i { a } else { a - 1 };
                        assert(slot_names(slots@)[a2] == k);
                    }
                    assert forall|j: int| 0 <= j < slots@.len() implies target.contains_key(
                        (#[trigger] slots@[j]).name@,
                    ) && target[slots@[j].name@] == slots@[j].value by {
                        let j2 = if j < i { j } else { j + 1 };
                        assert(slots@[j] == before[j2]);
                        assert(names[j2] != names[i as int]);
                    }
                    lemma_slots_map(slots@);
                    lemma_tabulates_unique(slots@, slots_map(slots@), target);
                }
                Some(slot.value)
            },
            None => {
                proof {
                    assert(target =~= slots_map(before));
                }
                None
            },
        };
        self.slots = slots;
        previous
    }
}

} // verus!
