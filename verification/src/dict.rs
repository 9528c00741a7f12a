use vstd::prelude::*;

use crate::bytes::{bytes_eq, copy_bytes};

verus! {

/// An association list from byte-string names to values, each name held at
/// most once. It backs every mapping the interpreter keeps; its abstract
/// content is a `Map` from the name's characters to the value's view.
pub struct Dict<V> {
    entries: Vec<(Vec<u8>, V)>,
}

pub open spec fn entries_map<V: DeepView>(entries: Seq<(Vec<u8>, V)>) -> Map<
    Seq<u8>,
    <V as DeepView>::V,
>
    decreases entries.len(),
{
    if entries.len() == 0 {
        Map::empty()
    } else {
        entries_map(entries.drop_last()).insert(
            entries.last().0@,
            entries.last().1.deep_view(),
        )
    }
}

impl<V: DeepView> View for Dict<V> {
    type V = Map<Seq<u8>, <V as DeepView>::V>;

    closed spec fn view(&self) -> Map<Seq<u8>, <V as DeepView>::V> {
        entries_map(self.entries@)
    }
}

proof fn lemma_absent_key<V: DeepView>(entries: Seq<(Vec<u8>, V)>, k: Seq<u8>)
    requires
        forall|i: int| 0 <= i < entries.len() ==> entries[i].0@ != k,
    ensures
        !entries_map(entries).contains_key(k),
    decreases entries.len(),
{
    if entries.len() > 0 {
        lemma_absent_key(entries.drop_last(), k);
    }
}

proof fn lemma_present_key<V: DeepView>(entries: Seq<(Vec<u8>, V)>, i: int)
    requires
        0 <= i < entries.len(),
        forall|p: int, q: int|
            0 <= p < q < entries.len() ==> entries[p].0@ != entries[q].0@,
    ensures
        entries_map(entries).contains_key(entries[i].0@),
        entries_map(entries)[entries[i].0@] == entries[i].1.deep_view(),
    decreases entries.len(),
{
    if i < entries.len() - 1 {
        assert(entries[i].0@ != entries.last().0@);
        lemma_present_key(entries.drop_last(), i);
    }
}

proof fn lemma_replace_entry<V: DeepView>(
    entries: Seq<(Vec<u8>, V)>,
    i: int,
    key: Vec<u8>,
    value: V,
)
    requires
        0 <= i < entries.len(),
        key@ == entries[i].0@,
        forall|p: int, q: int|
            0 <= p < q < entries.len() ==> entries[p].0@ != entries[q].0@,
    ensures
        entries_map(entries.update(i, (key, value))) == entries_map(entries).insert(
            key@,
            value.deep_view(),
        ),
    decreases entries.len(),
{
    let updated = entries.update(i, (key, value));
    if i == entries.len() - 1 {
        assert(updated.drop_last() =~= entries.drop_last());
        assert(entries_map(updated) =~= entries_map(entries).insert(key@, value.deep_view()));
    } else {
        assert(updated.drop_last() =~= entries.drop_last().update(i, (key, value)));
        lemma_replace_entry(entries.drop_last(), i, key, value);
        assert(entries[i].0@ != entries.last().0@);
        assert(entries_map(updated) =~= entries_map(entries).insert(key@, value.deep_view()));
    }
}

impl<V: DeepView> Dict<V> {
    /// Every name occurs at most once among the entries.
    pub closed spec fn wf(&self) -> bool {
        forall|p: int, q: int|
            0 <= p < q < self.entries@.len() ==> self.entries@[p].0@ != self.entries@[q].0@
    }

    pub fn new() -> (d: Self)
        ensures
            d.wf(),
            d@ == Map::<Seq<u8>, <V as DeepView>::V>::empty(),
    {
        Dict { entries: Vec::new() }
    }

    fn position(&self, name: &[u8]) -> (r: Option<usize>)
        ensures
            match r {
                Some(i) => i < self.entries@.len() && self.entries@[i as int].0@ == name@,
                None => forall|j: int|
                    0 <= j < self.entries@.len() ==> self.entries@[j].0@ != name@,
            },
    {
        let mut i: usize = 0;
        while i < self.entries.len()
            invariant
                i <= self.entries@.len(),
                forall|j: int| 0 <= j < i ==> self.entries@[j].0@ != name@,
            decreases self.entries@.len() - i,
        {
            if bytes_eq(self.entries[i].0.as_slice(), name) {
                return Some(i);
            }
            i = i + 1;
        }
        None
    }

    pub fn get(&self, name: &[u8]) -> (r: Option<&V>)
        requires
            self.wf(),
        ensures
            match r {
                Some(v) => self@.contains_key(name@) && v.deep_view() == self@[name@],
                None => !self@.contains_key(name@),
            },
    {
        match self.position(name) {
            Some(i) => {
                proof {
                    lemma_present_key(self.entries@, i as int);
                }
                Some(&self.entries[i].1)
            },
            None => {
                proof {
                    lemma_absent_key(self.entries@, name@);
                }
                None
            },
        }
    }

    pub fn set(&mut self, name: &[u8], value: V)
        requires
            old(self).wf(),
        ensures
            final(self).wf(),
            final(self)@ == old(self)@.insert(name@, value.deep_view()),
    {
        let key = copy_bytes(name);
        match self.position(name) {
            Some(i) => {
                proof {
                    lemma_replace_entry(self.entries@, i as int, key, value);
                }
                self.entries.set(i, (key, value));
            },
            None => {
                proof {
                    lemma_absent_key(self.entries@, name@);
                }
                self.entries.push((key, value));
                proof {
                    assert(self.entries@.drop_last() =~= old(self).entries@);
                }
            },
        }
    }

}

} // verus!
