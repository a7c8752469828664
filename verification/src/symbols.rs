//! The symbol table: names bound to 16-bit addresses.
//!
//! Entries are held as a vector of bindings with pairwise distinct names;
//! the table denotes the map from each name to its address, and inserting
//! an existing name overwrites its address.

use vstd::prelude::*;

verus! {

/// The map a sequence of bindings denotes: later bindings win.
pub open spec fn entries_map(s: Seq<(String, u16)>) -> Map<Seq<char>, u16>
    decreases s.len(),
{
    if s.len() == 0 {
        Map::empty()
    } else {
        entries_map(s.drop_last()).insert(s.last().0@, s.last().1)
    }
}

/// Pairwise distinct names.
pub open spec fn unique_keys(s: Seq<(String, u16)>) -> bool {
    forall|i: int, j: int| 0 <= i < j < s.len() ==> s[i].0@ != s[j].0@
}

/// A name in the sequence denotes a key of the map, and its address is
/// that key's value whenever names are pairwise distinct.
proof fn lemma_entries_map(s: Seq<(String, u16)>, k: Seq<char>)
    ensures
        entries_map(s).contains_key(k) <==> exists|i: int| 0 <= i < s.len() && s[i].0@ == k,
        unique_keys(s) ==> forall|i: int|
            0 <= i < s.len() && s[i].0@ == k ==> entries_map(s).contains_key(k) && entries_map(s)[k]
                == s[i].1,
    decreases s.len(),
{
    if s.len() > 0 {
        lemma_entries_map(s.drop_last(), k);
        if s.last().0@ == k {
            assert(s[s.len() - 1].0@ == k);
        } else {
            if entries_map(s).contains_key(k) {
                let i = choose|i: int| 0 <= i < s.drop_last().len() && s.drop_last()[i].0@ == k;
                assert(s[i].0@ == k);
            }
            if exists|i: int| 0 <= i < s.len() && s[i].0@ == k {
                let i = choose|i: int| 0 <= i < s.len() && s[i].0@ == k;
                assert(s.drop_last()[i].0@ == k);
            }
        }
    }
}

/// Overwriting the one binding of a name denotes inserting at its key.
proof fn lemma_entries_map_update(s: Seq<(String, u16)>, i: int, key: String, val: u16)
    requires
        unique_keys(s),
        0 <= i < s.len(),
        s[i].0@ == key@,
    ensures
        entries_map(s.update(i, (key, val))) =~= entries_map(s).insert(key@, val),
    decreases s.len(),
{
    if s.len() > 0 {
        if i == s.len() - 1 {
            assert(s.update(i, (key, val)).drop_last() =~= s.drop_last());
        } else {
            assert(s.update(i, (key, val)).drop_last() =~= s.drop_last().update(i, (key, val)));
            lemma_entries_map_update(s.drop_last(), i, key, val);
            assert(s[s.len() - 1].0@ != key@);
        }
    }
}

/// A symbol table. The preset names, labels and variables of one assembly
/// share it; binding a name again overwrites its address.
pub struct SymbolTable {
    entries: Vec<(String, u16)>,
}

impl View for SymbolTable {
    type V = Map<Seq<char>, u16>;

    closed spec fn view(&self) -> Map<Seq<char>, u16> {
        entries_map(self.entries@)
    }
}

impl SymbolTable {
    /// The table's names are pairwise distinct.
    pub closed spec fn wf(self) -> bool {
        unique_keys(self.entries@)
    }

    /// An empty table.
    pub fn new() -> (r: SymbolTable)
        ensures
            r.wf(),
            r@ == Map::<Seq<char>, u16>::empty(),
    {
        SymbolTable { entries: Vec::new() }
    }

    /// The address bound to `key`, if any.
    pub fn get(&self, key: &String) -> (r: Option<u16>)
        requires
            self.wf(),
        ensures
            match r {
                Some(a) => self@.contains_key(key@) && self@[key@] == a,
                None => !self@.contains_key(key@),
            },
    {
        proof {
            lemma_entries_map(self.entries@, key@);
        }
        let mut i: usize = 0;
        while i < self.entries.len()
            invariant
                i <= self.entries@.len(),
                self.wf(),
                entries_map(self.entries@) == self@,
                entries_map(self.entries@).contains_key(key@) <==> exists|j: int|
                    0 <= j < self.entries@.len() && self.entries@[j].0@ == key@,
                unique_keys(self.entries@) ==> forall|j: int|
                    0 <= j < self.entries@.len() && self.entries@[j].0@ == key@ ==> entries_map(
                        self.entries@,
                    ).contains_key(key@) && entries_map(self.entries@)[key@]
                        == self.entries@[j].1,
                forall|j: int| 0 <= j < i ==> self.entries@[j].0@ != key@,
            decreases self.entries@.len() - i,
        {
            if self.entries[i].0 == *key {
                return Some(self.entries[i].1);
            }
            i = i + 1;
        }
        None
    }

    /// Binds `key` to `val`, overwriting any previous binding.
    pub fn insert(&mut self, key: String, val: u16)
        requires
            old(self).wf(),
        ensures
            final(self).wf(),
            final(self)@ == old(self)@.insert(key@, val),
    {
        let ghost s0 = self.entries@;
        let mut i: usize = 0;
        while i < self.entries.len()
            invariant
                i <= self.entries@.len(),
                self.entries@ == s0,
                entries_map(s0) == old(self)@,
                unique_keys(s0),
                forall|j: int| 0 <= j < i ==> self.entries@[j].0@ != key@,
            decreases self.entries@.len() - i,
        {
            if self.entries[i].0 == *&key {
                self.entries[i] = (key, val);
                proof {
                    lemma_entries_map_update(s0, i as int, self.entries@[i as int].0, val);
                    assert(self.entries@ =~= s0.update(i as int, (self.entries@[i as int].0, val)));
                    assert(forall|p: int, q: int|
                        0 <= p < q < self.entries@.len() ==> self.entries@[p].0@
                            != self.entries@[q].0@);
                }
                return ;
            }
            i = i + 1;
        }
        self.entries.push((key, val));
        proof {
            assert(self.entries@.drop_last() =~= s0);
            assert(forall|p: int, q: int|
                0 <= p < q < self.entries@.len() ==> self.entries@[p].0@ != self.entries@[q].0@);
        }
    }
}

} // verus!
