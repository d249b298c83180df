//! The variable table of one test document: names bound to values, each name
//! at most once, a later binding of a name replacing the earlier one.

use vstd::prelude::*;
use crate::text::{bytes_eq, to_vec};

verus! {

/// One name with the value bound to it.
pub struct Binding {
    pub name: Vec<u8>,
    pub value: Vec<u8>,
}

/// Entry `i` of `entries` binds `name`.
pub open spec fn binds(entries: Seq<Binding>, i: int, name: Seq<u8>) -> bool {
    0 <= i < entries.len() && entries[i].name@ == name
}

/// No two entries bind the same name.
pub open spec fn distinct(entries: Seq<Binding>) -> bool {
    forall|i: int, j: int|
        0 <= i < j < entries.len() ==> (#[trigger] entries[i]).name@ != (
        #[trigger] entries[j]).name@
}

/// The mapping that a list of bindings stands for.
pub open spec fn table_of(entries: Seq<Binding>) -> Map<Seq<u8>, Seq<u8>> {
    Map::new(
        |name: Seq<u8>| exists|i: int| binds(entries, i, name),
        |name: Seq<u8>| entries[choose|i: int| binds(entries, i, name)].value@,
    )
}

/// In a list without repeated names, entry `i` decides what its name maps to.
pub proof fn lemma_table_entry(entries: Seq<Binding>, i: int)
    requires
        distinct(entries),
        0 <= i < entries.len(),
    ensures
        table_of(entries).contains_key(entries[i].name@),
        table_of(entries)[entries[i].name@] == entries[i].value@,
{
    let name = entries[i].name@;
    assert(binds(entries, i, name));
    let j = choose|j: int| binds(entries, j, name);
    assert(binds(entries, j, name));
    if i < j {
        assert(entries[i].name@ != entries[j].name@);
    }
    if j < i {
        assert(entries[j].name@ != entries[i].name@);
    }
}

/// Replacing the value at an entry rebinds that entry's name.
pub proof fn lemma_table_update(entries: Seq<Binding>, i: int, b: Binding)
    requires
        distinct(entries),
        binds(entries, i, b.name@),
    ensures
        distinct(entries.update(i, b)),
        table_of(entries.update(i, b)) == table_of(entries).insert(b.name@, b.value@),
{
    let after = entries.update(i, b);
    assert forall|p: int, q: int| 0 <= p < q < after.len() implies (#[trigger] after[p]).name@ != (
    #[trigger] after[q]).name@ by {
        assert(after[p].name@ == entries[p].name@);
        assert(after[q].name@ == entries[q].name@);
        assert(entries[p].name@ != entries[q].name@);
    }
    let want = table_of(entries).insert(b.name@, b.value@);
    assert forall|name: Seq<u8>| table_of(after).contains_key(name) <==> want.contains_key(
        name,
    ) by {
        if table_of(after).contains_key(name) {
            let p = choose|p: int| binds(after, p, name);
            assert(binds(entries, p, name));
        }
        if table_of(entries).contains_key(name) {
            let p = choose|p: int| binds(entries, p, name);
            assert(binds(after, p, name));
        }
        if name == b.name@ {
            assert(binds(after, i, name));
        }
    }
    assert forall|name: Seq<u8>| table_of(after).contains_key(name) implies table_of(after)[name]
        == want[name] by {
        let p = choose|p: int| binds(after, p, name);
        assert(binds(after, p, name));
        lemma_table_entry(after, p);
        if p != i {
            assert(binds(entries, p, name));
            lemma_table_entry(entries, p);
            if p < i {
                assert(entries[p].name@ != entries[i].name@);
            } else {
                assert(entries[i].name@ != entries[p].name@);
            }
        }
    }
    assert(table_of(after) =~= want);
}

/// Appending a binding of a new name binds that name and no other.
pub proof fn lemma_table_push(entries: Seq<Binding>, b: Binding)
    requires
        distinct(entries),
        forall|i: int| !binds(entries, i, b.name@),
    ensures
        distinct(entries.push(b)),
        table_of(entries.push(b)) == table_of(entries).insert(b.name@, b.value@),
{
    let after = entries.push(b);
    let last = entries.len() as int;
    assert forall|p: int, q: int| 0 <= p < q < after.len() implies (#[trigger] after[p]).name@ != (
    #[trigger] after[q]).name@ by {
        if q == last {
            assert(!binds(entries, p, b.name@));
        } else {
            assert(entries[p].name@ != entries[q].name@);
        }
    }
    let want = table_of(entries).insert(b.name@, b.value@);
    assert forall|name: Seq<u8>| table_of(after).contains_key(name) <==> want.contains_key(
        name,
    ) by {
        if table_of(after).contains_key(name) {
            let p = choose|p: int| binds(after, p, name);
            if p != last {
                assert(binds(entries, p, name));
            }
        }
        if table_of(entries).contains_key(name) {
            let p = choose|p: int| binds(entries, p, name);
            assert(binds(after, p, name));
        }
        if name == b.name@ {
            assert(binds(after, last, name));
        }
    }
    assert forall|name: Seq<u8>| table_of(after).contains_key(name) implies table_of(after)[name]
        == want[name] by {
        let p = choose|p: int| binds(after, p, name);
        assert(binds(after, p, name));
        lemma_table_entry(after, p);
        if p != last {
            assert(binds(entries, p, name));
            lemma_table_entry(entries, p);
        }
    }
    assert(table_of(after) =~= want);
}

/// A list without repeated names binds as many names as it has entries.
pub proof fn lemma_table_len(entries: Seq<Binding>)
    requires
        distinct(entries),
    ensures
        table_of(entries).dom().finite(),
        table_of(entries).len() == entries.len(),
    decreases entries.len(),
{
    if entries.len() == 0 {
        assert(table_of(entries).dom() =~= Set::<Seq<u8>>::empty());
    } else {
        let head = entries.drop_last();
        let last = entries.last();
        assert forall|i: int, j: int| 0 <= i < j < head.len() implies (#[trigger] head[i]).name@
            != (#[trigger] head[j]).name@ by {
            assert(entries[i].name@ != entries[j].name@);
        }
        assert forall|i: int| !binds(head, i, last.name@) by {
            if 0 <= i < head.len() {
                assert(entries[i].name@ != entries[entries.len() - 1].name@);
            }
        }
        lemma_table_len(head);
        lemma_table_push(head, last);
        assert(head.push(last) =~= entries);
        assert(!table_of(head).dom().contains(last.name@)) by {
            if table_of(head).dom().contains(last.name@) {
                let i = choose|i: int| binds(head, i, last.name@);
                assert(binds(head, i, last.name@));
            }
        }
        assert(table_of(entries).dom() =~= table_of(head).dom().insert(last.name@));
    }
}

/// Names bound to values. Binding a name that is already bound replaces its
/// value.
pub struct VariableTable {
    entries: Vec<Binding>,
}

impl View for VariableTable {
    type V = Map<Seq<u8>, Seq<u8>>;

    closed spec fn view(&self) -> Map<Seq<u8>, Seq<u8>> {
        table_of(self.entries@)
    }
}

impl VariableTable {
    #[verifier::type_invariant]
    closed spec fn well_formed(&self) -> bool {
        distinct(self.entries@)
    }

    /// A table that binds nothing.
    pub fn new() -> (t: VariableTable)
        ensures
            t@ == Map::<Seq<u8>, Seq<u8>>::empty(),
    {
        let t = VariableTable { entries: Vec::new() };
        assert(t@ =~= Map::<Seq<u8>, Seq<u8>>::empty());
        t
    }

    fn position(&self, name: &[u8]) -> (r: Option<usize>)
        ensures
            match r {
                Some(i) => binds(self.entries@, i as int, name@),
                None => forall|i: int| !binds(self.entries@, i, name@),
            },
    {
        let mut k: usize = 0;
        while k < self.entries.len()
            invariant
                k <= self.entries.len(),
                forall|i: int| 0 <= i < k ==> !binds(self.entries@, i, name@),
            decreases self.entries.len() - k,
        {
            if bytes_eq(self.entries[k].name.as_slice(), name) {
                return Some(k);
            }
            k += 1;
        }
        None
    }

    /// The value bound to `name`, if it is bound.
    pub fn get(&self, name: &[u8]) -> (r: Option<&Vec<u8>>)
        ensures
            match r {
                Some(v) => self@.contains_key(name@) && self@[name@] == v@,
                None => !self@.contains_key(name@),
            },
    {
        proof {
            use_type_invariant(self);
        }
        match self.position(name) {
            Some(i) => {
                proof {
                    lemma_table_entry(self.entries@, i as int);
                }
                Some(&self.entries[i].value)
            },
            None => None,
        }
    }

    /// Whether `name` is bound.
    pub fn contains(&self, name: &[u8]) -> (r: bool)
        ensures
            r == self@.contains_key(name@),
    {
        self.get(name).is_some()
    }

    /// Binds `name` to `value`, replacing an earlier binding of `name`.
    pub fn set(&mut self, name: Vec<u8>, value: Vec<u8>)
        ensures
            final(self)@ == old(self)@.insert(name@, value@),
    {
        proof {
            use_type_invariant(&*self);
        }
        let found = self.position(name.as_slice());
        let b = Binding { name, value };
        let mut entries: Vec<Binding> = Vec::new();
        core::mem::swap(&mut self.entries, &mut entries);
        match found {
            Some(i) => {
                proof {
                    lemma_table_update(entries@, i as int, b);
                }
                entries.set(i, b);
            },
            None => {
                proof {
                    lemma_table_push(entries@, b);
                }
                entries.push(b);
            },
        }
        core::mem::swap(&mut self.entries, &mut entries);
    }

    /// How many names are bound.
    pub fn len(&self) -> (n: usize)
        ensures
            self@.dom().finite(),
            n == self@.len(),
    {
        proof {
            use_type_invariant(self);
            lemma_table_len(self.entries@);
        }
        self.entries.len()
    }

    /// A table with the same bindings.
    pub fn duplicate(&self) -> (t: VariableTable)
        ensures
            t@ == self@,
    {
        proof {
            use_type_invariant(self);
        }
        let mut t = VariableTable::new();
        let mut k: usize = 0;
        while k < self.entries.len()
            invariant
                k <= self.entries.len(),
                distinct(self.entries@),
                t@ == table_of(self.entries@.subrange(0, k as int)),
            decreases self.entries.len() - k,
        {
            let name = to_vec(self.entries[k].name.as_slice());
            let value = to_vec(self.entries[k].value.as_slice());
            proof {
                let head = self.entries@.subrange(0, k as int);
                let next = self.entries@.subrange(0, k + 1);
                assert(next =~= head.push(self.entries@[k as int]));
                assert forall|i: int| !binds(head, i, name@) by {
                    if 0 <= i < k {
                        assert(self.entries@[i].name@ != self.entries@[k as int].name@);
                    }
                }
                assert forall|p: int, q: int| 0 <= p < q < head.len() implies (
                #[trigger] head[p]).name@ != (#[trigger] head[q]).name@ by {
                    assert(self.entries@[p].name@ != self.entries@[q].name@);
                }
                lemma_table_push(head, self.entries@[k as int]);
            }
            t.set(name, value);
            k += 1;
        }
        assert(self.entries@.subrange(0, k as int) =~= self.entries@);
        t
    }
}

} // verus!
