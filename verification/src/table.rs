use vstd::prelude::*;
use crate::text::text_eq;

verus! {

/// The map that a list of entries with distinct names stands for.
pub open spec fn map_of<V>(entries: Seq<(String, V)>) -> Map<Seq<char>, V>
    decreases entries.len(),
{
    if entries.len() == 0 {
        Map::empty()
    } else {
        let last = entries[entries.len() - 1];
        map_of(entries.subrange(0, entries.len() - 1)).insert(last.0@, last.1)
    }
}

pub proof fn lemma_map_of_finite<V>(entries: Seq<(String, V)>)
    ensures
        map_of(entries).dom().finite(),
    decreases entries.len(),
{
    if entries.len() > 0 {
        lemma_map_of_finite(entries.subrange(0, entries.len() - 1));
    }
}

/// No name occurs twice.
pub open spec fn distinct_names<V>(entries: Seq<(String, V)>) -> bool {
    forall|i: int, j: int| 0 <= i < entries.len() && 0 <= j < entries.len() && i != j ==> entries[i].0@ != entries[j].0@
}

pub proof fn lemma_map_of<V>(entries: Seq<(String, V)>)
    requires
        distinct_names(entries),
    ensures
        forall|k: Seq<char>| map_of(entries).dom().contains(k) <==> exists|i: int| 0 <= i < entries.len() && entries[i].0@ == k,
        forall|i: int| 0 <= i < entries.len() ==> map_of(entries).dom().contains(#[trigger] entries[i].0@) && map_of(entries)[entries[i].0@] == entries[i].1,
        map_of(entries).dom().finite(),
        map_of(entries).dom().len() == entries.len(),
    decreases entries.len(),
{
    if entries.len() > 0 {
        let front = entries.subrange(0, entries.len() - 1);
        let last = entries[entries.len() - 1];
        lemma_map_of(front);
        assert forall|k: Seq<char>| map_of(entries).dom().contains(k) implies exists|i: int| 0 <= i < entries.len() && entries[i].0@ == k by {
            if k != last.0@ {
                let i = choose|i: int| 0 <= i < front.len() && front[i].0@ == k;
                assert(entries[i].0@ == k);
            } else {
                assert(entries[entries.len() - 1].0@ == k);
            }
        }
        assert forall|k: Seq<char>| (exists|i: int| 0 <= i < entries.len() && entries[i].0@ == k) implies map_of(entries).dom().contains(k) by {
            let i = choose|i: int| 0 <= i < entries.len() && entries[i].0@ == k;
            if i < entries.len() - 1 {
                assert(front[i].0@ == k);
            }
        }
        assert forall|i: int| 0 <= i < entries.len() implies map_of(entries).dom().contains(#[trigger] entries[i].0@) && map_of(entries)[entries[i].0@] == entries[i].1 by {
            if i < entries.len() - 1 {
                assert(front[i] == entries[i]);
                assert(entries[i].0@ != last.0@);
            }
        }
        assert(!map_of(front).dom().contains(last.0@)) by {
            if map_of(front).dom().contains(last.0@) {
                let i = choose|i: int| 0 <= i < front.len() && front[i].0@ == last.0@;
                assert(entries[i].0@ == entries[entries.len() - 1].0@);
            }
        }
    }
}

/// A table from names to values in which no name occurs twice.
pub struct NameTable<V> {
    entries: Vec<(String, V)>,
}

impl<V> View for NameTable<V> {
    type V = Map<Seq<char>, V>;

    closed spec fn view(&self) -> Map<Seq<char>, V> {
        map_of(self.entries@)
    }
}

impl<V> NameTable<V> {
    #[verifier::type_invariant]
    closed spec fn inv(self) -> bool {
        distinct_names(self.entries@)
    }

    /// The names and values in the order in which the names were first added.
    pub closed spec fn listing(&self) -> Seq<(String, V)> {
        self.entries@
    }

    /// A table holds finitely many names.
    pub proof fn lemma_finite(&self)
        ensures
            self@.dom().finite(),
    {
        lemma_map_of_finite(self.entries@);
    }

    /// An empty table.
    pub fn new() -> (res: Self)
        ensures
            res@ == Map::<Seq<char>, V>::empty(),
    {
        NameTable { entries: Vec::new() }
    }

    fn find(&self, name: &str) -> (res: Option<usize>)
        ensures
            match res {
                Some(i) => i < self.entries@.len() && self.entries@[i as int].0@ == name@,
                None => forall|i: int| 0 <= i < self.entries@.len() ==> self.entries@[i].0@ != name@,
            },
    {
        let mut i: usize = 0;
        while i < self.entries.len()
            invariant
                i <= self.entries@.len(),
                forall|k: int| 0 <= k < i ==> self.entries@[k].0@ != name@,
            decreases self.entries@.len() - i,
        {
            if text_eq(self.entries[i].0.as_str(), name) {
                return Some(i);
            }
            i = i + 1;
        }
        None
    }

    /// The value of `name`, if the table has it.
    pub fn get(&self, name: &str) -> (res: Option<&V>)
        ensures
            match res {
                Some(v) => self@.dom().contains(name@) && *v == self@[name@],
                None => !self@.dom().contains(name@),
            },
    {
        proof {
            use_type_invariant(self);
            lemma_map_of(self.entries@);
        }
        match self.find(name) {
            Some(i) => Some(&self.entries[i].1),
            None => None,
        }
    }

    /// Whether the table has `name`.
    pub fn contains(&self, name: &str) -> (res: bool)
        ensures
            res == self@.dom().contains(name@),
    {
        proof {
            use_type_invariant(self);
            lemma_map_of(self.entries@);
        }
        self.find(name).is_some()
    }

    /// Gives `name` the value `value`.
    pub fn insert(&mut self, name: String, value: V)
        ensures
            final(self)@ == old(self)@.insert(name@, value),
    {
        proof {
            use_type_invariant(&*self);
            lemma_map_of(self.entries@);
        }
        let ghost old_entries = self.entries@;
        let found = self.find(name.as_str());
        match found {
            Some(i) => {
                let ghost n = name@;
                let mut entries: Vec<(String, V)> = Vec::new();
                std::mem::swap(&mut entries, &mut self.entries);
                entries.set(i, (name, value));
                std::mem::swap(&mut entries, &mut self.entries);
                proof {
                    assert(distinct_names(self.entries@));
                    lemma_map_of(self.entries@);
                    assert(map_of(self.entries@) =~= map_of(old_entries).insert(n, value)) by {
                        assert forall|k: Seq<char>| map_of(self.entries@).dom().contains(k) <==> map_of(old_entries).insert(n, value).dom().contains(k) by {
                            if map_of(self.entries@).dom().contains(k) {
                                let j = choose|j: int| 0 <= j < self.entries@.len() && self.entries@[j].0@ == k;
                                if j != i {
                                    assert(old_entries[j].0@ == k);
                                }
                            }
                            if map_of(old_entries).dom().contains(k) && k != n {
                                let j = choose|j: int| 0 <= j < old_entries.len() && old_entries[j].0@ == k;
                                assert(self.entries@[j].0@ == k);
                            }
                            if k == n {
                                assert(self.entries@[i as int].0@ == k);
                            }
                        }
                        assert forall|k: Seq<char>| #[trigger] map_of(self.entries@).dom().contains(k) implies map_of(self.entries@)[k] == map_of(old_entries).insert(n, value)[k] by {
                            let j = choose|j: int| 0 <= j < self.entries@.len() && self.entries@[j].0@ == k;
                            if j != i {
                                assert(old_entries[j] == self.entries@[j]);
                            }
                        }
                    }
                }
            },
            None => {
                let mut entries: Vec<(String, V)> = Vec::new();
                std::mem::swap(&mut entries, &mut self.entries);
                entries.push((name, value));
                proof {
                    assert(entries@.subrange(0, entries@.len() - 1) =~= old_entries);
                    assert(distinct_names(entries@));
                }
                std::mem::swap(&mut entries, &mut self.entries);
                proof {
                    assert(self.entries@.subrange(0, self.entries@.len() - 1) =~= old_entries);
                    assert(distinct_names(self.entries@));
                }
            },
        }
    }

    /// Takes `name` out of the table.
    pub fn remove(&mut self, name: &str)
        ensures
            final(self)@ == old(self)@.remove(name@),
    {
        proof {
            use_type_invariant(&*self);
            lemma_map_of(self.entries@);
        }
        let ghost old_entries = self.entries@;
        match self.find(name) {
            Some(i) => {
                let mut entries: Vec<(String, V)> = Vec::new();
                std::mem::swap(&mut entries, &mut self.entries);
                entries.remove(i);
                proof {
                    assert(distinct_names(entries@)) by {
                        assert forall|a: int, b: int| 0 <= a < entries@.len() && 0 <= b < entries@.len() && a != b implies entries@[a].0@ != entries@[b].0@ by {
                            let oa = if a < i { a } else { a + 1 };
                            let ob = if b < i { b } else { b + 1 };
                            assert(entries@[a] == old_entries[oa]);
                            assert(entries@[b] == old_entries[ob]);
                        }
                    }
                }
                std::mem::swap(&mut entries, &mut self.entries);
                proof {
                    assert(distinct_names(self.entries@)) by {
                        assert forall|a: int, b: int| 0 <= a < self.entries@.len() && 0 <= b < self.entries@.len() && a != b implies self.entries@[a].0@ != self.entries@[b].0@ by {
                            let oa = if a < i { a } else { a + 1 };
                            let ob = if b < i { b } else { b + 1 };
                            assert(self.entries@[a] == old_entries[oa]);
                            assert(self.entries@[b] == old_entries[ob]);
                        }
                    }
                    lemma_map_of(self.entries@);
                    assert(map_of(self.entries@) =~= map_of(old_entries).remove(name@)) by {
                        assert forall|k: Seq<char>| map_of(self.entries@).dom().contains(k) <==> map_of(old_entries).remove(name@).dom().contains(k) by {
                            if map_of(self.entries@).dom().contains(k) {
                                let j = choose|j: int| 0 <= j < self.entries@.len() && self.entries@[j].0@ == k;
                                let oj = if j < i { j } else { j + 1 };
                                assert(old_entries[oj] == self.entries@[j]);
                            }
                            if map_of(old_entries).dom().contains(k) && k != name@ {
                                let j = choose|j: int| 0 <= j < old_entries.len() && old_entries[j].0@ == k;
                                let nj = if j < i { j } else { j - 1 };
                                assert(self.entries@[nj] == old_entries[j]);
                            }
                        }
                        assert forall|k: Seq<char>| #[trigger] map_of(self.entries@).dom().contains(k) implies map_of(self.entries@)[k] == map_of(old_entries).remove(name@)[k] by {
                            let j = choose|j: int| 0 <= j < self.entries@.len() && self.entries@[j].0@ == k;
                            let oj = if j < i { j } else { j + 1 };
                            assert(old_entries[oj] == self.entries@[j]);
                        }
                    }
                }
            },
            None => {
                proof {
                    assert(map_of(old_entries) =~= map_of(old_entries).remove(name@));
                }
            },
        }
    }

    /// The entries of the table, each once, in the order in which the names
    /// were first added.
    pub fn entries(&self) -> (res: &Vec<(String, V)>)
        ensures
            res@ == self.listing(),
            distinct_names(res@),
            self@ == map_of(res@),
            forall|i: int| 0 <= i < res@.len() ==> self@.dom().contains(#[trigger] res@[i].0@) && self@[res@[i].0@] == res@[i].1,
            forall|k: Seq<char>| self@.dom().contains(k) <==> exists|i: int| 0 <= i < res@.len() && res@[i].0@ == k,
            self@.dom().finite(),
            self@.dom().len() == res@.len(),
    {
        proof {
            use_type_invariant(self);
            lemma_map_of(self.entries@);
        }
        &self.entries
    }
}

} // verus!

verus! {

/// The texts of a table of strings.
pub open spec fn texts(m: Map<Seq<char>, String>) -> Map<Seq<char>, Seq<char>> {
    m.map_values(|v: String| v@)
}

} // verus!
